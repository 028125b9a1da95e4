use vstd::prelude::*;

use crate::score::{is_nan, key_of, ordinal, score_key};

verus! {

/// Record `i` comes before record `j` in the ranking: the higher key first,
/// and of two equal keys the earlier record first.
pub open spec fn ranks_before(keys: Seq<u32>, i: int, j: int) -> bool {
    keys[i] > keys[j] || (keys[i] == keys[j] && i < j)
}

/// The number of records that a ranking of `n` records cut at `limit` keeps.
pub open spec fn kept(n: int, limit: int) -> int {
    if limit < n {
        limit
    } else {
        n
    }
}

/// `order` lists, best first, the first `limit` records of the ranking of
/// `keys` (all of them where there are fewer).
pub open spec fn is_top_ranking(keys: Seq<u32>, limit: int, order: Seq<usize>) -> bool {
    &&& order.len() == kept(keys.len() as int, limit)
    &&& forall|p: int| 0 <= p < order.len() ==> #[trigger] order[p] < keys.len()
    &&& forall|p: int, q: int|
        0 <= p < q < order.len() ==> ranks_before(keys, #[trigger] order[p] as int, #[trigger] order[q] as int)
    &&& forall|j: usize, p: int|
        #![trigger order.contains(j), order[p]]
        j < keys.len() && !order.contains(j) && 0 <= p < order.len() ==> ranks_before(
            keys,
            order[p] as int,
            j as int,
        )
}

proof fn lemma_ranks_before_trans(keys: Seq<u32>, a: int, b: int, c: int)
    requires
        ranks_before(keys, a, b),
        ranks_before(keys, b, c),
    ensures
        ranks_before(keys, a, c),
{
}

/// The indices of the records with the `limit` highest keys, highest first;
/// records of equal key keep their order.
pub fn rank_by_key(keys: &Vec<u32>, limit: usize) -> (order: Vec<usize>)
    ensures
        is_top_ranking(keys@, limit as int, order@),
{
    let n = keys.len();
    let mut order: Vec<usize> = Vec::new();
    let mut i: usize = 0;
    while i < n
        invariant
            i <= n,
            n == keys@.len(),
            order@.len() == kept(i as int, limit as int),
            forall|p: int| 0 <= p < order@.len() ==> #[trigger] order@[p] < i,
            forall|p: int, q: int|
                0 <= p < q < order@.len() ==> ranks_before(
                    keys@,
                    #[trigger] order@[p] as int,
                    #[trigger] order@[q] as int,
                ),
            order@.len() < limit ==> forall|j: usize| j < i ==> #[trigger] order@.contains(j),
            forall|j: usize, p: int|
                #![trigger order@.contains(j), order@[p]]
                j < i && !order@.contains(j) && 0 <= p < order@.len() ==> ranks_before(
                    keys@,
                    order@[p] as int,
                    j as int,
                ),
        decreases n - i,
    {
        let mut pos: usize = 0;
        while pos < order.len() && keys[i] <= keys[order[pos]]
            invariant
                pos <= order@.len(),
                i < n,
                n == keys@.len(),
                forall|p: int| 0 <= p < order@.len() ==> #[trigger] order@[p] < i,
                forall|q: int| 0 <= q < pos ==> ranks_before(keys@, #[trigger] order@[q] as int, i as int),
            decreases order@.len() - pos,
        {
            pos = pos + 1;
        }
        let ghost prev = order@;
        proof {
            assert forall|q: int| pos <= q < prev.len() implies ranks_before(keys@, i as int, #[trigger] prev[q] as int) by {
                assert(ranks_before(keys@, i as int, prev[pos as int] as int));
                if q > pos {
                    lemma_ranks_before_trans(keys@, i as int, prev[pos as int] as int, prev[q] as int);
                }
            }
        }
        if pos < limit {
            order.insert(pos, i);
            proof {
                assert(order@[pos as int] == i);
                assert forall|j: usize| prev.contains(j) implies #[trigger] order@.contains(j) by {
                    let k = choose|k: int| 0 <= k < prev.len() && prev[k] == j;
                    if k < pos {
                        assert(order@[k] == j);
                    } else {
                        assert(order@[k + 1] == j);
                    }
                }
            }
            if order.len() > limit {
                let ghost full = order@;
                order.pop();
                proof {
                    assert(order@ =~= full.drop_last());
                    assert(order@[pos as int] == i);
                    let last = prev[prev.len() - 1];
                    assert forall|j: usize| prev.contains(j) && j != last implies #[trigger] order@.contains(j) by {
                        let k = choose|k: int| 0 <= k < prev.len() && prev[k] == j;
                        if k < pos {
                            assert(order@[k] == j);
                        } else {
                            assert(k < prev.len() - 1);
                            assert(order@[k + 1] == j);
                        }
                    }
                    assert forall|j: usize, p: int|
                        #![trigger order@.contains(j), order@[p]]
                        j <= i && !order@.contains(j) && 0 <= p < order@.len() implies ranks_before(
                            keys@,
                            order@[p] as int,
                            j as int,
                        ) by {
                        assert(order@.contains(i));
                        assert(ranks_before(keys@, i as int, last as int));
                        if j == last {
                            if p != pos {
                                let pp = if p < pos { p } else { p - 1 };
                                assert(order@[p] == prev[pp]);
                                assert(prev[prev.len() - 1] == last);
                            }
                        } else {
                            assert(!prev.contains(j));
                            assert(ranks_before(keys@, last as int, j as int)) by {
                                assert(prev[prev.len() - 1] == last);
                            }
                            if p == pos {
                                lemma_ranks_before_trans(keys@, i as int, last as int, j as int);
                            } else {
                                let pp = if p < pos { p } else { p - 1 };
                                assert(order@[p] == prev[pp]);
                            }
                        }
                    }
                }
            } else {
                proof {
                    assert forall|j: usize| j <= i implies #[trigger] order@.contains(j) by {
                        if j < i {
                            assert(prev.contains(j));
                        }
                    }
                }
            }
        }
        i = i + 1;
    }
    order
}


/// The ranking keys of a sequence of score bit patterns.
pub open spec fn keys_of_scores(scores: Seq<u32>) -> Seq<u32> {
    scores.map_values(|b: u32| key_of(b) as u32)
}

proof fn lemma_rankings_agree_below(keys: Seq<u32>, limit: int, o1: Seq<usize>, o2: Seq<usize>, n: int)
    requires
        keys.len() <= usize::MAX,
        is_top_ranking(keys, limit, o1),
        is_top_ranking(keys, limit, o2),
        0 <= n <= o1.len(),
    ensures
        forall|q: int| 0 <= q < n ==> #[trigger] o1[q] == o2[q],
    decreases n,
{
    if n > 0 {
        lemma_rankings_agree_below(keys, limit, o1, o2, n - 1);
        let p = n - 1;
        let x = o1[p];
        let y = o2[p];
        if x != y {
            if ranks_before(keys, x as int, y as int) {
                lemma_ranked_earlier(keys, limit, o1, o2, p);
            } else {
                assert(ranks_before(keys, y as int, x as int));
                lemma_ranked_earlier(keys, limit, o2, o1, p);
            }
        }
    }
}

proof fn lemma_ranked_earlier(keys: Seq<u32>, limit: int, o1: Seq<usize>, o2: Seq<usize>, p: int)
    requires
        keys.len() <= usize::MAX,
        is_top_ranking(keys, limit, o1),
        is_top_ranking(keys, limit, o2),
        0 <= p < o1.len(),
        forall|q: int| 0 <= q < p ==> #[trigger] o1[q] == o2[q],
    ensures
        !ranks_before(keys, o1[p] as int, o2[p] as int),
{
    let x = o1[p];
    if ranks_before(keys, o1[p] as int, o2[p] as int) && o2.contains(x) {
        let q = choose|q: int| 0 <= q < o2.len() && o2[q] == x;
        if q < p {
            assert(ranks_before(keys, o1[q] as int, o1[p] as int));
        } else {
            assert(q != p);
            assert(ranks_before(keys, o2[p] as int, o2[q] as int));
        }
    } else if ranks_before(keys, o1[p] as int, o2[p] as int) {
        assert(ranks_before(keys, o2[p] as int, x as int));
    }
}

/// The ranking is determined by the keys and the limit: ties are broken the
/// same way every time.
pub proof fn lemma_top_ranking_unique(keys: Seq<u32>, limit: int, o1: Seq<usize>, o2: Seq<usize>)
    requires
        keys.len() <= usize::MAX,
        is_top_ranking(keys, limit, o1),
        is_top_ranking(keys, limit, o2),
    ensures
        o1 == o2,
{
    lemma_rankings_agree_below(keys, limit, o1, o2, o1.len() as int);
    assert(o1 =~= o2);
}

/// A record whose key is strictly above every other one heads the ranking, and
/// is all of it when the limit is one.
pub proof fn lemma_strict_best_first(keys: Seq<u32>, limit: int, order: Seq<usize>, best: int)
    requires
        1 <= limit,
        keys.len() <= usize::MAX,
        is_top_ranking(keys, limit, order),
        0 <= best < keys.len(),
        forall|j: int| 0 <= j < keys.len() && j != best ==> keys[best] > #[trigger] keys[j],
    ensures
        order.len() >= 1,
        order[0] == best,
        limit == 1 ==> order == seq![best as usize],
{
    let x = order[0];
    if x as int != best {
        let b = best as usize;
        if order.contains(b) {
            let q = choose|q: int| 0 <= q < order.len() && order[q] == b;
            assert(q != 0);
            assert(ranks_before(keys, order[0] as int, order[q] as int));
        } else {
            assert(ranks_before(keys, order[0] as int, b as int));
        }
        assert(keys[best] > keys[x as int]);
    }
    if limit == 1 {
        assert(order =~= seq![best as usize]);
    }
}

/// Ranks records by their similarity scores, given as the bit patterns of
/// single-precision numbers: the indices of the `limit` best, best first, NaN
/// scores last, and records of equal score in their stored order.
pub fn rank_scores(scores: &Vec<u32>, limit: usize) -> (order: Vec<usize>)
    ensures
        is_top_ranking(keys_of_scores(scores@), limit as int, order@),
{
    let mut keys: Vec<u32> = Vec::new();
    let mut i: usize = 0;
    while i < scores.len()
        invariant
            i <= scores@.len(),
            keys@ =~= keys_of_scores(scores@).take(i as int),
        decreases scores@.len() - i,
    {
        let k = score_key(scores[i]);
        keys.push(k);
        i = i + 1;
    }
    assert(keys@ =~= keys_of_scores(scores@));
    rank_by_key(&keys, limit)
}

/// A ranking never holds more than `limit` records, holds none of an empty
/// store, lists keys in descending order, and starts with a best record.
pub proof fn lemma_top_ranking_shape(keys: Seq<u32>, limit: int, order: Seq<usize>)
    requires
        0 <= limit,
        keys.len() <= usize::MAX,
        is_top_ranking(keys, limit, order),
    ensures
        order.len() <= limit,
        keys.len() == 0 ==> order.len() == 0,
        forall|p: int, q: int|
            0 <= p < q < order.len() ==> keys[#[trigger] order[p] as int] >= keys[#[trigger] order[q] as int],
        order.len() > 0 ==> forall|j: int| 0 <= j < keys.len() ==> keys[order[0] as int] >= #[trigger] keys[j],
{
    if order.len() > 0 {
        assert forall|j: int| 0 <= j < keys.len() implies keys[order[0] as int] >= #[trigger] keys[j] by {
            let ju = j as usize;
            if order.contains(ju) {
                let q = choose|q: int| 0 <= q < order.len() && order[q] == ju;
                if q > 0 {
                    assert(ranks_before(keys, order[0] as int, order[q] as int));
                }
            } else {
                assert(ranks_before(keys, order[0] as int, ju as int));
            }
        }
    }
}


/// Orders `records` by their `scores` as `rank_scores` does and keeps the
/// first `limit`, each paired with its score.
pub fn rank_records<R>(records: Vec<R>, scores: &Vec<u32>, limit: usize) -> (r: Vec<(R, u32)>)
    requires
        records@.len() == scores@.len(),
    ensures
        exists|order: Seq<usize>|
            {
                &&& is_top_ranking(keys_of_scores(scores@), limit as int, order)
                &&& r@.len() == order.len()
                &&& forall|p: int|
                    0 <= p < order.len() ==> #[trigger] r@[p] == (
                        records@[order[p] as int],
                        scores@[order[p] as int],
                    )
            },
{
    let ghost all = records@;
    let n = records.len();
    let order = rank_scores(scores, limit);
    let mut rest = records;
    let mut slots: Vec<Option<R>> = Vec::new();
    while rest.len() > 0
        invariant
            n == all.len(),
            slots@.len() + rest@.len() == n,
            rest@ =~= all.take(rest@.len() as int),
            forall|j: int| 0 <= j < slots@.len() ==> #[trigger] slots@[j] == Some(all[n - 1 - j]),
        decreases rest@.len(),
    {
        match rest.pop() {
            Some(item) => slots.push(Some(item)),
            None => {},
        }
    }
    let mut out: Vec<(R, u32)> = Vec::new();
    let mut p: usize = 0;
    while p < order.len()
        invariant
            n == all.len(),
            n == scores@.len(),
            slots@.len() == n,
            p <= order@.len(),
            is_top_ranking(keys_of_scores(scores@), limit as int, order@),
            out@.len() == p,
            forall|q: int|
                0 <= q < p ==> #[trigger] out@[q] == (all[order@[q] as int], scores@[order@[q] as int]),
            forall|t: int|
                0 <= t < n ==> #[trigger] slots@[n - 1 - t] == if order@.take(p as int).contains(
                    t as usize,
                ) {
                    None
                } else {
                    Some(all[t])
                },
        decreases order@.len() - p,
    {
        let t = order[p];
        proof {
            assert(keys_of_scores(scores@).len() == n);
            assert(!order@.take(p as int).contains(t)) by {
                if order@.take(p as int).contains(t) {
                    let q = choose|q: int| 0 <= q < p && order@.take(p as int)[q] == t;
                    assert(ranks_before(keys_of_scores(scores@), order@[q] as int, order@[p as int] as int));
                }
            }
            assert(slots@[n - 1 - t] == Some(all[t as int]));
        }
        let ghost before = slots@;
        let taken = slots[n - 1 - t].take();
        match taken {
            Some(item) => out.push((item, scores[t])),
            None => {},
        }
        proof {
            assert forall|u: int| 0 <= u < n implies #[trigger] slots@[n - 1 - u] == if order@.take(
                p + 1,
            ).contains(u as usize) {
                None
            } else {
                Some(all[u])
            } by {
                assert(order@.take(p + 1) =~= order@.take(p as int).push(t));
                assert(slots@ == before.update(n - 1 - t, None::<R>));
                if u == t as int {
                    assert(order@.take(p + 1)[p as int] == t);
                } else {
                    assert(slots@[n - 1 - u] == before[n - 1 - u]);
                    assert(order@.take(p + 1).contains(u as usize) == order@.take(p as int).contains(u as usize));
                }
            }
        }
        p = p + 1;
    }
    out
}


/// In a ranking of scores, a NaN is followed only by NaNs, and numbers come in
/// descending order.
pub proof fn lemma_scores_descending(scores: Seq<u32>, limit: int, order: Seq<usize>)
    requires
        is_top_ranking(keys_of_scores(scores), limit, order),
    ensures
        forall|p: int, q: int|
            0 <= p < q < order.len() ==> {
                let a = scores[#[trigger] order[p] as int];
                let b = scores[#[trigger] order[q] as int];
                is_nan(a) ==> is_nan(b)
            } && {
                let a = scores[order[p] as int];
                let b = scores[order[q] as int];
                !is_nan(b) ==> !is_nan(a) && ordinal(a) >= ordinal(b)
            },
{
    let keys = keys_of_scores(scores);
    assert forall|p: int, q: int| 0 <= p < q < order.len() implies {
        let a = scores[#[trigger] order[p] as int];
        let b = scores[#[trigger] order[q] as int];
        (is_nan(a) ==> is_nan(b)) && (!is_nan(b) ==> !is_nan(a) && ordinal(a) >= ordinal(b))
    } by {
        let a = scores[order[p] as int];
        let b = scores[order[q] as int];
        assert(ranks_before(keys, order[p] as int, order[q] as int));
        assert(keys[order[p] as int] == key_of(a) as u32);
        assert(keys[order[q] as int] == key_of(b) as u32);
        assert(0 <= key_of(a) < 0x1_0000_0000);
        assert(0 <= key_of(b) < 0x1_0000_0000);
    }
}

} // verus!
