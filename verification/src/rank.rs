//! Ordering search results: best score first, ties in the order they came.

use vstd::prelude::*;
use vstd::seq_lib::*;

verus! {

/// `(score, index)` pairs: `a` belongs before `b`.
pub open spec fn ahead(a: (i32, usize), b: (i32, usize)) -> bool {
    a.0 > b.0 || (a.0 == b.0 && a.1 <= b.1)
}

pub open spec fn in_order(s: Seq<(i32, usize)>) -> bool {
    forall|i: int, j: int| 0 <= i < j < s.len() ==> ahead(#[trigger] s[i], #[trigger] s[j])
}

/// Scores as whole numbers, `None` where there was no match.
pub open spec fn score_view(scores: Seq<Option<i32>>) -> Seq<Option<int>> {
    scores.map_values(
        |s: Option<i32>|
            match s {
                Some(v) => Some(v as int),
                None => None,
            },
    )
}

/// The match `i` is listed before the match `j`: it scored more, or as much and
/// came first.
pub open spec fn listed_before(scores: Seq<Option<int>>, i: usize, j: usize) -> bool {
    let a = scores[i as int]->0;
    let b = scores[j as int]->0;
    a > b || (a == b && i < j)
}

/// `order` lists the matches, each once, best score first and ties in the order
/// they came.
pub open spec fn is_ranking(scores: Seq<Option<int>>, order: Seq<usize>) -> bool {
    &&& forall|k: int|
        0 <= k < order.len() ==> (#[trigger] order[k] as int) < scores.len()
            && scores[order[k] as int] is Some
    &&& forall|i: usize|
        (i as int) < scores.len() && scores[i as int] is Some ==> #[trigger] order.contains(i)
    &&& forall|j: int, k: int|
        0 <= j < k < order.len() ==> listed_before(
            scores,
            #[trigger] order[j],
            #[trigger] order[k],
        )
}

/// The ranking of `scores`.
pub open spec fn ranking_of(scores: Seq<Option<int>>) -> Seq<usize> {
    choose|order: Seq<usize>| is_ranking(scores, order)
}

proof fn lemma_same_members(a: Seq<(i32, usize)>, b: Seq<(i32, usize)>)
    requires
        a.to_multiset() == b.to_multiset(),
    ensures
        a.len() == b.len(),
        forall|x: (i32, usize)| a.contains(x) <==> b.contains(x),
{
    broadcast use group_to_multiset_ensures;

    assert forall|x: (i32, usize)| a.contains(x) <==> b.contains(x) by {
        assert(a.contains(x) <==> a.to_multiset().count(x) > 0);
        assert(b.contains(x) <==> b.to_multiset().count(x) > 0);
    }
    assert(a.len() == a.to_multiset().len());
    assert(b.len() == b.to_multiset().len());
}

proof fn lemma_push_multiset(s: Seq<(i32, usize)>, x: (i32, usize))
    ensures
        s.push(x).to_multiset() == s.to_multiset().insert(x),
{
    broadcast use group_to_multiset_ensures;

}

/// Two ordered lists become one.
fn merge(a: &Vec<(i32, usize)>, b: &Vec<(i32, usize)>) -> (out: Vec<(i32, usize)>)
    requires
        in_order(a@),
        in_order(b@),
    ensures
        in_order(out@),
        out@.to_multiset() == a@.to_multiset().add(b@.to_multiset()),
{
    let mut out: Vec<(i32, usize)> = Vec::new();
    let mut i: usize = 0;
    let mut j: usize = 0;
    proof {
        assert(a@.take(0).to_multiset().add(b@.take(0).to_multiset()) =~= out@.to_multiset()) by {
            assert(a@.take(0) == Seq::<(i32, usize)>::empty());
            assert(b@.take(0) == Seq::<(i32, usize)>::empty());
            assert(out@ == Seq::<(i32, usize)>::empty());
            out@.to_multiset_ensures();
            assert(out@.to_multiset().len() == 0);
        }
    }
    while i < a.len() || j < b.len()
        invariant
            i <= a@.len(),
            j <= b@.len(),
            in_order(a@),
            in_order(b@),
            in_order(out@),
            out@.to_multiset() == a@.take(i as int).to_multiset().add(
                b@.take(j as int).to_multiset(),
            ),
            forall|k: int, m: int|
                0 <= k < out@.len() && i <= m < a@.len() ==> ahead(
                    #[trigger] out@[k],
                    #[trigger] a@[m],
                ),
            forall|k: int, m: int|
                0 <= k < out@.len() && j <= m < b@.len() ==> ahead(
                    #[trigger] out@[k],
                    #[trigger] b@[m],
                ),
        decreases (a.len() - i) + (b.len() - j),
    {
        let from_a: bool = if i < a.len() && j < b.len() {
            a[i].0 > b[j].0 || (a[i].0 == b[j].0 && a[i].1 <= b[j].1)
        } else {
            i < a.len()
        };
        let ghost before = out@;
        if from_a {
            out.push(a[i]);
            proof {
                lemma_push_multiset(before, a@[i as int]);
                lemma_push_multiset(a@.take(i as int), a@[i as int]);
                assert(a@.take(i + 1) == a@.take(i as int).push(a@[i as int]));
                assert(out@.to_multiset() =~= a@.take(i + 1).to_multiset().add(
                    b@.take(j as int).to_multiset(),
                ));
            }
            i += 1;
        } else {
            out.push(b[j]);
            proof {
                lemma_push_multiset(before, b@[j as int]);
                lemma_push_multiset(b@.take(j as int), b@[j as int]);
                assert(b@.take(j + 1) == b@.take(j as int).push(b@[j as int]));
                assert(out@.to_multiset() =~= a@.take(i as int).to_multiset().add(
                    b@.take(j + 1).to_multiset(),
                ));
            }
            j += 1;
        }
    }
    assert(a@.take(i as int) == a@);
    assert(b@.take(j as int) == b@);
    out
}

/// The pairs from `lo` up to `hi`, in order.
fn sorted(v: &Vec<(i32, usize)>, lo: usize, hi: usize) -> (out: Vec<(i32, usize)>)
    requires
        lo <= hi <= v@.len(),
    ensures
        in_order(out@),
        out@.to_multiset() == v@.subrange(lo as int, hi as int).to_multiset(),
    decreases hi - lo,
{
    if hi - lo <= 1 {
        let mut out: Vec<(i32, usize)> = Vec::new();
        if lo < hi {
            out.push(v[lo]);
        }
        assert(out@ == v@.subrange(lo as int, hi as int));
        return out;
    }
    let mid: usize = lo + (hi - lo) / 2;
    let left: Vec<(i32, usize)> = sorted(v, lo, mid);
    let right: Vec<(i32, usize)> = sorted(v, mid, hi);
    proof {
        let l = v@.subrange(lo as int, mid as int);
        let r = v@.subrange(mid as int, hi as int);
        assert(l + r == v@.subrange(lo as int, hi as int));
        vstd::seq_lib::lemma_multiset_commutative(l, r);
    }
    merge(&left, &right)
}

/// The indices of the matches in `scores`, best score first; ties keep the
/// order they came in.
pub fn rank(scores: &Vec<Option<i32>>) -> (order: Vec<usize>)
    ensures
        is_ranking(score_view(scores@), order@),
        order@ == ranking_of(score_view(scores@)),
        order@.no_duplicates(),
        forall|k: int|
            0 <= k < order@.len() ==> (#[trigger] order@[k] as int) < scores@.len()
                && scores@[order@[k] as int] is Some,
        forall|i: int|
            0 <= i < scores@.len() && #[trigger] scores@[i] is Some ==> order@.contains(i as usize),
        forall|j: int, k: int|
            0 <= j < k < order@.len() ==> {
                let a = scores@[#[trigger] order@[j] as int]->0;
                let b = scores@[#[trigger] order@[k] as int]->0;
                a > b || (a == b && order@[j] < order@[k])
            },
{
    let mut pairs: Vec<(i32, usize)> = Vec::new();
    let mut i: usize = 0;
    while i < scores.len()
        invariant
            i <= scores@.len(),
            forall|k: int|
                0 <= k < pairs@.len() ==> (#[trigger] pairs@[k]).1 < i && scores@[pairs@[k].1 as int]
                    == Some(pairs@[k].0),
            forall|m: usize|
                m < i && #[trigger] scores@[m as int] is Some ==> pairs@.contains(
                    (scores@[m as int]->0, m),
                ),
            forall|j: int, k: int|
                0 <= j < k < pairs@.len() ==> (#[trigger] pairs@[j]).1 < (#[trigger] pairs@[k]).1,
        decreases scores.len() - i,
    {
        if let Some(s) = scores[i] {
            let ghost before = pairs@;
            pairs.push((s, i));
            proof {
                assert forall|m: usize|
                    m < i + 1 && #[trigger] scores@[m as int] is Some implies pairs@.contains(
                    (scores@[m as int]->0, m),
                ) by {
                    if m < i {
                        assert(before.contains((scores@[m as int]->0, m)));
                        let k = choose|k: int|
                            0 <= k < before.len() && before[k] == (scores@[m as int]->0, m);
                        assert(pairs@[k] == before[k]);
                    } else {
                        assert(pairs@[pairs@.len() - 1] == (scores@[m as int]->0, m));
                    }
                }
            }
        }
        i += 1;
    }
    let ranked: Vec<(i32, usize)> = sorted(&pairs, 0, pairs.len());
    proof {
        assert(pairs@.subrange(0, pairs@.len() as int) == pairs@);
        lemma_same_members(ranked@, pairs@);
        assert(pairs@.no_duplicates());
        lemma_ranked_distinct(pairs@, ranked@);
    }
    let mut order: Vec<usize> = Vec::new();
    let mut n: usize = 0;
    while n < ranked.len()
        invariant
            n <= ranked@.len(),
            order@.len() == n,
            forall|k: int| 0 <= k < n ==> #[trigger] order@[k] == ranked@[k].1,
        decreases ranked.len() - n,
    {
        order.push(ranked[n].1);
        n += 1;
    }
    proof {
        let view = score_view(scores@);
        assert forall|k: int| 0 <= k < order@.len() implies (#[trigger] order@[k] as int)
            < view.len() && view[order@[k] as int] == Some(ranked@[k].0 as int) by {
            assert(ranked@.contains(ranked@[k]));
            let m = choose|m: int| 0 <= m < pairs@.len() && pairs@[m] == ranked@[k];
            assert(pairs@[m].1 < i);
        }
        assert forall|m: usize| (m as int) < view.len() && view[m as int] is Some implies
            #[trigger] order@.contains(m) by {
            assert(scores@[m as int] is Some);
            let x = (scores@[m as int]->0, m);
            assert(ranked@.contains(x));
            let k = choose|k: int| 0 <= k < ranked@.len() && ranked@[k] == x;
            assert(order@[k] == m);
        }
        assert forall|j: int, k: int| 0 <= j < k < order@.len() implies listed_before(
            view,
            #[trigger] order@[j],
            #[trigger] order@[k],
        ) by {
            assert(view[order@[j] as int] == Some(ranked@[j].0 as int));
            assert(view[order@[k] as int] == Some(ranked@[k].0 as int));
            assert(ahead(ranked@[j], ranked@[k]));
            assert(ranked@[j].1 != ranked@[k].1);
        }
        assert(is_ranking(view, order@));
        law_ranking_is_unique(view, order@, ranking_of(view));
        assert forall|k: int| 0 <= k < order@.len() implies (#[trigger] order@[k] as int)
            < scores@.len() && scores@[order@[k] as int] is Some by {
            assert(view[order@[k] as int] is Some);
        }
        assert forall|i: int| 0 <= i < scores@.len() && #[trigger] scores@[i] is Some implies
            order@.contains(i as usize) by {
            assert(view[i] is Some);
            assert(order@.contains(i as usize));
        }
        assert forall|j: int, k: int| 0 <= j < k < order@.len() implies {
            let a = scores@[#[trigger] order@[j] as int]->0;
            let b = scores@[#[trigger] order@[k] as int]->0;
            a > b || (a == b && order@[j] < order@[k])
        } by {
            assert(listed_before(view, order@[j], order@[k]));
            assert(view[order@[j] as int] is Some && view[order@[k] as int] is Some);
        }
    }
    order
}

proof fn lemma_ranked_distinct(pairs: Seq<(i32, usize)>, ranked: Seq<(i32, usize)>)
    requires
        pairs.to_multiset() == ranked.to_multiset(),
        forall|j: int, k: int|
            0 <= j < k < pairs.len() ==> (#[trigger] pairs[j]).1 < (#[trigger] pairs[k]).1,
    ensures
        forall|j: int, k: int|
            0 <= j < k < ranked.len() ==> (#[trigger] ranked[j]).1 != (#[trigger] ranked[k]).1,
{
    assert(pairs.no_duplicates());
    pairs.lemma_multiset_has_no_duplicates();
    ranked.lemma_multiset_has_no_duplicates_conv();
    lemma_same_members(ranked, pairs);
    assert forall|j: int, k: int| 0 <= j < k < ranked.len() implies (#[trigger] ranked[j]).1 != (
    #[trigger] ranked[k]).1 by {
        assert(ranked.contains(ranked[j]) && ranked.contains(ranked[k]));
        let a = choose|a: int| 0 <= a < pairs.len() && pairs[a] == ranked[j];
        let b = choose|b: int| 0 <= b < pairs.len() && pairs[b] == ranked[k];
        if a == b {
            assert(ranked[j] == ranked[k]);
        }
    }
}

proof fn lemma_ordered_equal(scores: Seq<Option<int>>, a: Seq<usize>, b: Seq<usize>)
    requires
        forall|j: int, k: int|
            0 <= j < k < a.len() ==> listed_before(scores, #[trigger] a[j], #[trigger] a[k]),
        forall|j: int, k: int|
            0 <= j < k < b.len() ==> listed_before(scores, #[trigger] b[j], #[trigger] b[k]),
        forall|x: usize| a.contains(x) <==> b.contains(x),
    ensures
        a == b,
    decreases a.len(),
{
    if a.len() == 0 {
        if b.len() > 0 {
            assert(b.contains(b[0]));
        }
        assert(a =~= b);
    } else {
        assert(a.contains(a[0]));
        assert(b.contains(a[0]));
        let i = choose|i: int| 0 <= i < b.len() && b[i] == a[0];
        assert(b.contains(b[0]));
        assert(a.contains(b[0]));
        let m = choose|m: int| 0 <= m < a.len() && a[m] == b[0];
        assert(a[0] == b[0]) by {
            if i > 0 && m > 0 {
                assert(listed_before(scores, b[0], b[i]));
                assert(listed_before(scores, a[0], a[m]));
            }
        }
        let ra = a.drop_first();
        let rb = b.drop_first();
        assert forall|x: usize| ra.contains(x) <==> rb.contains(x) by {
            if ra.contains(x) {
                let k = choose|k: int| 0 <= k < ra.len() && ra[k] == x;
                assert(a[k + 1] == x);
                assert(listed_before(scores, a[0], a[k + 1]));
                assert(a.contains(x));
                let n = choose|n: int| 0 <= n < b.len() && b[n] == x;
                assert(rb[n - 1] == x);
            }
            if rb.contains(x) {
                let k = choose|k: int| 0 <= k < rb.len() && rb[k] == x;
                assert(b[k + 1] == x);
                assert(listed_before(scores, b[0], b[k + 1]));
                assert(b.contains(x));
                let n = choose|n: int| 0 <= n < a.len() && a[n] == x;
                assert(ra[n - 1] == x);
            }
        }
        assert forall|j: int, k: int| 0 <= j < k < ra.len() implies listed_before(
            scores,
            #[trigger] ra[j],
            #[trigger] ra[k],
        ) by {
            assert(listed_before(scores, a[j + 1], a[k + 1]));
        }
        assert forall|j: int, k: int| 0 <= j < k < rb.len() implies listed_before(
            scores,
            #[trigger] rb[j],
            #[trigger] rb[k],
        ) by {
            assert(listed_before(scores, b[j + 1], b[k + 1]));
        }
        lemma_ordered_equal(scores, ra, rb);
        assert(a =~= seq![a[0]] + ra);
        assert(b =~= seq![b[0]] + rb);
    }
}

/// There is only one ranking of given scores.
pub proof fn law_ranking_is_unique(scores: Seq<Option<int>>, a: Seq<usize>, b: Seq<usize>)
    requires
        is_ranking(scores, a),
        is_ranking(scores, b),
    ensures
        a == b,
{
    assert forall|x: usize| a.contains(x) <==> b.contains(x) by {
        if a.contains(x) {
            let k = choose|k: int| 0 <= k < a.len() && a[k] == x;
            assert(scores[a[k] as int] is Some);
        }
        if b.contains(x) {
            let k = choose|k: int| 0 <= k < b.len() && b[k] == x;
            assert(scores[b[k] as int] is Some);
        }
    }
    lemma_ordered_equal(scores, a, b);
}

/// How many of the matches at the start of `order` score `s` or more.
spec fn place(scores: Seq<Option<int>>, order: Seq<usize>, s: int) -> int
    decreases order.len(),
{
    if order.len() == 0 || scores[order[0] as int]->0 < s {
        0
    } else {
        1 + place(scores, order.drop_first(), s)
    }
}

proof fn lemma_place(scores: Seq<Option<int>>, order: Seq<usize>, s: int)
    ensures
        0 <= place(scores, order, s) <= order.len(),
        forall|k: int|
            0 <= k < place(scores, order, s) ==> scores[#[trigger] order[k] as int]->0 >= s,
        place(scores, order, s) < order.len() ==> scores[order[place(scores, order, s)] as int]->0
            < s,
    decreases order.len(),
{
    if order.len() > 0 && scores[order[0] as int]->0 >= s {
        let rest = order.drop_first();
        lemma_place(scores, rest, s);
        assert forall|k: int| 0 <= k < place(scores, order, s) implies scores[#[trigger] order[k] as int]->0
            >= s by {
            if k > 0 {
                assert(order[k] == rest[k - 1]);
            }
        }
    }
}

/// Scores that a machine can index have a ranking.
pub(crate) proof fn lemma_ranking_exists(scores: Seq<Option<int>>)
    requires
        scores.len() <= usize::MAX,
    ensures
        is_ranking(scores, ranking_of(scores)),
    decreases scores.len(),
{
    if scores.len() == 0 {
        assert(is_ranking(scores, Seq::empty()));
    } else {
        let shorter = scores.drop_last();
        let n = (scores.len() - 1) as usize;
        lemma_ranking_exists(shorter);
        let order = ranking_of(shorter);
        assert forall|k: int| 0 <= k < order.len() implies (#[trigger] order[k] as int) < n
            && scores[order[k] as int] == shorter[order[k] as int] by {}
        match scores.last() {
            None => {
                assert forall|i: usize| (i as int) < scores.len() && scores[i as int] is Some implies
                    #[trigger] order.contains(i) by {
                    assert(shorter[i as int] is Some);
                }
                assert forall|j: int, k: int| 0 <= j < k < order.len() implies listed_before(
                    scores,
                    #[trigger] order[j],
                    #[trigger] order[k],
                ) by {
                    assert(listed_before(shorter, order[j], order[k]));
                }
                assert(is_ranking(scores, order));
            },
            Some(s) => {
                let p = place(scores, order, s);
                lemma_place(scores, order, s);
                let longer = order.insert(p, n);
                assert forall|k: int| 0 <= k < longer.len() implies (#[trigger] longer[k] as int)
                    < scores.len() && scores[longer[k] as int] is Some by {
                    if k < p {
                        assert(longer[k] == order[k]);
                    } else if k > p {
                        assert(longer[k] == order[k - 1]);
                    }
                }
                assert forall|i: usize| (i as int) < scores.len() && scores[i as int] is Some implies
                    #[trigger] longer.contains(i) by {
                    if i < n {
                        assert(shorter[i as int] is Some);
                        assert(order.contains(i));
                        let k = choose|k: int| 0 <= k < order.len() && order[k] == i;
                        if k < p {
                            assert(longer[k] == i);
                        } else {
                            assert(longer[k + 1] == i);
                        }
                    } else {
                        assert(longer[p] == i);
                    }
                }
                assert forall|j: int, k: int| 0 <= j < k < longer.len() implies listed_before(
                    scores,
                    #[trigger] longer[j],
                    #[trigger] longer[k],
                ) by {
                    let a = if j < p {
                        j
                    } else {
                        j - 1
                    };
                    let b = if k < p {
                        k
                    } else {
                        k - 1
                    };
                    if j != p && k != p {
                        assert(longer[j] == order[a] && longer[k] == order[b]);
                        assert(listed_before(shorter, order[a], order[b]));
                    } else if k == p {
                        assert(longer[j] == order[a]);
                    } else {
                        assert(longer[k] == order[b]);
                        if b > p {
                            assert(listed_before(shorter, order[p], order[b]));
                        }
                    }
                }
                assert(is_ranking(scores, longer));
            },
        }
    }
}

/// A ranking lists what has a score and nothing else, each once; whatever comes
/// before something else scored more, or as much and came first.
pub proof fn law_best_score_comes_first(scores: Seq<Option<int>>)
    requires
        scores.len() <= usize::MAX,
    ensures
        ({
            let order = ranking_of(scores);
            &&& order.no_duplicates()
            &&& forall|k: int|
                0 <= k < order.len() ==> (#[trigger] order[k] as int) < scores.len()
                    && scores[order[k] as int] is Some
            &&& forall|i: int|
                0 <= i < scores.len() && #[trigger] scores[i] is Some ==> order.contains(i as usize)
            &&& forall|j: int, k: int|
                0 <= j < k < order.len() ==> {
                    let a = scores[#[trigger] order[j] as int]->0;
                    let b = scores[#[trigger] order[k] as int]->0;
                    a > b || (a == b && order[j] < order[k])
                }
        }),
{
    lemma_ranking_exists(scores);
    let order = ranking_of(scores);
    assert forall|i: int| 0 <= i < scores.len() && #[trigger] scores[i] is Some implies order.contains(
        i as usize,
    ) by {
        let at = i as usize;
        assert(scores[at as int] is Some);
        assert(order.contains(at));
    }
    assert forall|j: int, k: int| 0 <= j < k < order.len() implies {
        let a = scores[#[trigger] order[j] as int]->0;
        let b = scores[#[trigger] order[k] as int]->0;
        a > b || (a == b && order[j] < order[k])
    } by {
        assert(listed_before(scores, order[j], order[k]));
    }
}

} // verus!
