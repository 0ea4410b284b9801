use crate::weights::{first_above_or_last, prefix_sum, PROB_ONE};
use vstd::prelude::*;

verus! {

/// Whether an entry of weight `p`, one of `n`, stays in the candidate set
/// of nucleus sampling with threshold `topp`: its probability is at least
/// the cutoff `(1 - topp) / (n - 1)`, stated here without the division.
pub open spec fn admitted(p: u32, n: int, topp: u32) -> bool {
    p * (n - 1) + topp >= PROB_ONE
}

/// Where an entry of weight `p` goes into the ascending sequence `r`: behind
/// every entry that is not heavier than it.
pub open spec fn insert_pos(r: Seq<(u32, usize)>, p: u32) -> int
    decreases r.len(),
{
    if r.len() == 0 {
        0
    } else if r.last().0 > p {
        insert_pos(r.drop_last(), p)
    } else {
        r.len() as int
    }
}

/// The candidates among the first `k` entries of `probs`, each with its
/// index, in ascending order of weight; entries of equal weight stay in the
/// order of their indices.
pub open spec fn ranking_upto(probs: Seq<u32>, topp: u32, k: int) -> Seq<(u32, usize)>
    decreases k,
{
    if k <= 0 {
        Seq::empty()
    } else {
        let r = ranking_upto(probs, topp, k - 1);
        let p = probs[k - 1];
        if admitted(p, probs.len() as int, topp) {
            r.insert(insert_pos(r, p), (p, (k - 1) as usize))
        } else {
            r
        }
    }
}

/// The candidates of `probs` in ascending order of weight.
pub open spec fn ranking(probs: Seq<u32>, topp: u32) -> Seq<(u32, usize)> {
    ranking_upto(probs, topp, probs.len() as int)
}

/// The weights of a sequence of entries.
pub open spec fn weights_of(r: Seq<(u32, usize)>) -> Seq<u32> {
    Seq::new(r.len(), |k: int| r[k].0)
}

/// The position in the ascending candidates `r` at which nucleus sampling
/// cuts: the first at which the running sum is strictly above `topp`, else
/// the last.
pub open spec fn nucleus_cut(r: Seq<(u32, usize)>, topp: u32) -> int {
    first_above_or_last(weights_of(r), 1, topp as int)
}

/// The position in the ascending candidates `r` that nucleus sampling
/// picks for `coin`: with `mass` the running sum up to the cut, the first
/// position up to the cut whose running sum is strictly above
/// `coin * mass / PROB_ONE`, else the cut itself.
pub open spec fn nucleus_pos(r: Seq<(u32, usize)>, topp: u32, coin: u32) -> int {
    let cut = nucleus_cut(r, topp);
    let mass = prefix_sum(weights_of(r), cut + 1);
    first_above_or_last(weights_of(r).take(cut + 1), PROB_ONE as int, coin * mass)
}

/// The index that nucleus sampling gives for `probs`, or `None` where no
/// entry is a candidate.
pub open spec fn nucleus_pick(probs: Seq<u32>, topp: u32, coin: u32) -> Option<int> {
    let r = ranking(probs, topp);
    if r.len() == 0 {
        None
    } else {
        Some(r[nucleus_pos(r, topp, coin)].1 as int)
    }
}

/// `r` lists in ascending order of weight, and among equal weights in
/// ascending order of index, exactly the candidates among the first `k`
/// entries of `probs`.
pub open spec fn is_ranking_upto(r: Seq<(u32, usize)>, probs: Seq<u32>, topp: u32, k: int) -> bool {
    &&& forall|a: int|
        0 <= a < r.len() ==> {
            &&& 0 <= (#[trigger] r[a]).1 < k
            &&& r[a].0 == probs[r[a].1 as int]
            &&& admitted(r[a].0, probs.len() as int, topp)
        }
    &&& forall|a: int, b: int|
        0 <= a < b < r.len() ==> {
            ||| (#[trigger] r[a]).0 < (#[trigger] r[b]).0
            ||| (r[a].0 == r[b].0 && r[a].1 < r[b].1)
        }
    &&& forall|i: int|
        0 <= i < k && admitted(#[trigger] probs[i], probs.len() as int, topp) ==> r.contains(
            (probs[i], i as usize),
        )
}

/// Where `insert_pos` puts an entry: everything from there on is heavier,
/// and the entry just before is not.
pub proof fn lemma_insert_pos(r: Seq<(u32, usize)>, p: u32)
    ensures
        0 <= insert_pos(r, p) <= r.len(),
        forall|a: int| insert_pos(r, p) <= a < r.len() ==> (#[trigger] r[a]).0 > p,
        insert_pos(r, p) > 0 ==> r[insert_pos(r, p) - 1].0 <= p,
    decreases r.len(),
{
    if r.len() > 0 && r.last().0 > p {
        let q = r.drop_last();
        lemma_insert_pos(q, p);
        assert forall|a: int| insert_pos(r, p) <= a < r.len() implies (#[trigger] r[a]).0 > p by {
            if a < q.len() {
                assert(q[a] == r[a]);
            }
        }
        if insert_pos(r, p) > 0 {
            assert(q[insert_pos(r, p) - 1] == r[insert_pos(r, p) - 1]);
        }
    }
}

/// The ranking of the first `k` entries is what its name says, and no
/// longer than `k`.
pub proof fn lemma_ranking_upto(probs: Seq<u32>, topp: u32, k: int)
    requires
        0 <= k <= probs.len(),
        probs.len() <= usize::MAX,
    ensures
        is_ranking_upto(ranking_upto(probs, topp, k), probs, topp, k),
        ranking_upto(probs, topp, k).len() <= k,
    decreases k,
{
    if k > 0 {
        lemma_ranking_upto(probs, topp, k - 1);
        let r = ranking_upto(probs, topp, k - 1);
        let p = probs[k - 1];
        let n = probs.len() as int;
        if admitted(p, n, topp) {
            let pos = insert_pos(r, p);
            let x = (p, (k - 1) as usize);
            let s = r.insert(pos, x);
            lemma_insert_pos(r, p);
            r.insert_ensures(pos, x);
            assert forall|a: int| 0 <= a < s.len() implies {
                &&& 0 <= (#[trigger] s[a]).1 < k
                &&& s[a].0 == probs[s[a].1 as int]
                &&& admitted(s[a].0, n, topp)
            } by {
                if a < pos {
                    assert(s[a] == r[a]);
                } else if a > pos {
                    assert(s[(a - 1) + 1] == r[a - 1]);
                }
            }
            assert forall|a: int, b: int| 0 <= a < b < s.len() implies {
                ||| (#[trigger] s[a]).0 < (#[trigger] s[b]).0
                ||| (s[a].0 == s[b].0 && s[a].1 < s[b].1)
            } by {
                if a > pos {
                    assert(s[(a - 1) + 1] == r[a - 1]);
                }
                if b > pos {
                    assert(s[(b - 1) + 1] == r[b - 1]);
                }
                if b == pos {
                    assert(s[a] == r[a]);
                    if a < pos - 1 {
                        assert(r[a].0 <= r[pos - 1].0);
                    }
                } else if a == pos {
                    assert(r[b - 1].0 > p);
                } else if a < pos {
                    assert(s[a] == r[a]);
                }
            }
            assert forall|i: int|
                0 <= i < k && admitted(#[trigger] probs[i], n, topp) implies s.contains(
                (probs[i], i as usize),
            ) by {
                if i == k - 1 {
                    assert(s[pos] == x);
                } else {
                    let a = choose|a: int| 0 <= a < r.len() && r[a] == (probs[i], i as usize);
                    if a < pos {
                        assert(s[a] == r[a]);
                    } else {
                        assert(s[a + 1] == r[a]);
                    }
                }
            }
        }
    }
}

/// The number of candidates among the first `k` entries of `probs`.
pub open spec fn admitted_count(probs: Seq<u32>, topp: u32, k: int) -> int
    decreases k,
{
    if k <= 0 {
        0
    } else if admitted(probs[k - 1], probs.len() as int, topp) {
        admitted_count(probs, topp, k - 1) + 1
    } else {
        admitted_count(probs, topp, k - 1)
    }
}

/// The ranking of the first `k` entries has one entry for each candidate
/// among them.
pub proof fn lemma_ranking_len(probs: Seq<u32>, topp: u32, k: int)
    requires
        0 <= k <= probs.len(),
    ensures
        ranking_upto(probs, topp, k).len() == admitted_count(probs, topp, k),
        0 <= admitted_count(probs, topp, k) <= k,
    decreases k,
{
    if k > 0 {
        lemma_ranking_len(probs, topp, k - 1);
        let r = ranking_upto(probs, topp, k - 1);
        let p = probs[k - 1];
        lemma_insert_pos(r, p);
        r.insert_ensures(insert_pos(r, p), (p, (k - 1) as usize));
    }
}

/// Where every entry among the first `k` is a candidate, there are `k`
/// candidates.
pub proof fn lemma_admitted_count_full(probs: Seq<u32>, topp: u32, k: int)
    requires
        0 <= k <= probs.len(),
        forall|i: int| 0 <= i < k ==> admitted(#[trigger] probs[i], probs.len() as int, topp),
    ensures
        admitted_count(probs, topp, k) == k,
    decreases k,
{
    if k > 0 {
        lemma_admitted_count_full(probs, topp, k - 1);
    }
}

/// With a threshold of `PROB_ONE` the cutoff is zero and every entry is a
/// candidate, and so it is with any threshold above that.
pub proof fn lemma_admitted_at_one(p: u32, n: int, topp: u32)
    requires
        n >= 1,
        topp >= PROB_ONE,
    ensures
        admitted(p, n, topp),
{
    assert(p * (n - 1) >= 0) by (nonlinear_arith)
        requires
            p >= 0,
            n - 1 >= 0,
    ;
}

/// Where every entry of `probs` is at least the cutoff, nucleus sampling
/// takes the whole distribution into its candidates: the ranking is as
/// long as `probs` and holds every entry with its index.
pub proof fn lemma_ranking_full_support(probs: Seq<u32>, topp: u32)
    requires
        probs.len() <= usize::MAX,
        forall|i: int|
            0 <= i < probs.len() ==> admitted(#[trigger] probs[i], probs.len() as int, topp),
    ensures
        ranking(probs, topp).len() == probs.len(),
        forall|i: int|
            0 <= i < probs.len() ==> ranking(probs, topp).contains(
                (#[trigger] probs[i], i as usize),
            ),
{
    lemma_ranking_len(probs, topp, probs.len() as int);
    lemma_admitted_count_full(probs, topp, probs.len() as int);
    lemma_ranking(probs, topp);
}

/// With a threshold of `PROB_ONE` or more, nucleus sampling takes the whole
/// distribution into its candidates.
pub proof fn lemma_ranking_full_at_one(probs: Seq<u32>, topp: u32)
    requires
        probs.len() <= usize::MAX,
        topp >= PROB_ONE,
    ensures
        ranking(probs, topp).len() == probs.len(),
        forall|i: int|
            0 <= i < probs.len() ==> ranking(probs, topp).contains(
                (#[trigger] probs[i], i as usize),
            ),
{
    assert forall|i: int| 0 <= i < probs.len() implies admitted(
        #[trigger] probs[i],
        probs.len() as int,
        topp,
    ) by {
        lemma_admitted_at_one(probs[i], probs.len() as int, topp);
    }
    lemma_ranking_full_support(probs, topp);
}

/// The ranking of `probs` holds exactly its candidates, lightest first.
pub proof fn lemma_ranking(probs: Seq<u32>, topp: u32)
    requires
        probs.len() <= usize::MAX,
    ensures
        is_ranking_upto(ranking(probs, topp), probs, topp, probs.len() as int),
        ranking(probs, topp).len() <= probs.len(),
{
    lemma_ranking_upto(probs, topp, probs.len() as int);
}

/// `a` comes before `b` in a ranking: it is lighter, or as heavy and of a
/// smaller index.
pub open spec fn ranks_before(a: (u32, usize), b: (u32, usize)) -> bool {
    a.0 < b.0 || (a.0 == b.0 && a.1 < b.1)
}

/// Two sequences in which every entry ranks before the later ones, and
/// which hold the same entries, agree up to any position of both.
proof fn lemma_same_ranking_upto(r1: Seq<(u32, usize)>, r2: Seq<(u32, usize)>, k: int)
    requires
        forall|a: int, b: int|
            0 <= a < b < r1.len() ==> ranks_before(#[trigger] r1[a], #[trigger] r1[b]),
        forall|a: int, b: int|
            0 <= a < b < r2.len() ==> ranks_before(#[trigger] r2[a], #[trigger] r2[b]),
        forall|x: (u32, usize)| r1.contains(x) <==> r2.contains(x),
        0 <= k <= r1.len(),
        k <= r2.len(),
    ensures
        r1.take(k) == r2.take(k),
    decreases k,
{
    if k > 0 {
        lemma_same_ranking_upto(r1, r2, k - 1);
        let x = r1[k - 1];
        let y = r2[k - 1];
        assert(r1.contains(x));
        assert(r2.contains(y));
        let j = choose|j: int| 0 <= j < r2.len() && r2[j] == x;
        let i = choose|i: int| 0 <= i < r1.len() && r1[i] == y;
        if j < k - 1 {
            assert(r1.take(k - 1)[j] == r2.take(k - 1)[j]);
            assert(ranks_before(r1[j], r1[k - 1]));
        }
        if i < k - 1 {
            assert(r1.take(k - 1)[i] == r2.take(k - 1)[i]);
            assert(ranks_before(r2[i], r2[k - 1]));
        }
        if j > k - 1 {
            assert(ranks_before(r2[k - 1], r2[j]));
        }
        if i > k - 1 {
            assert(ranks_before(r1[k - 1], r1[i]));
        }
        assert(x == y);
        assert(r1.take(k) =~= r1.take(k - 1).push(x));
        assert(r2.take(k) =~= r2.take(k - 1).push(y));
    } else {
        assert(r1.take(0) =~= r2.take(0));
    }
}

/// There is one ranking only: a sequence that lists exactly the
/// candidates of `probs`, lightest first and equal weights in the order of
/// their indices, is the ranking of `probs`.
pub proof fn lemma_ranking_unique(r: Seq<(u32, usize)>, probs: Seq<u32>, topp: u32)
    requires
        probs.len() <= usize::MAX,
        is_ranking_upto(r, probs, topp, probs.len() as int),
    ensures
        r == ranking(probs, topp),
{
    let q = ranking(probs, topp);
    let n = probs.len() as int;
    lemma_ranking(probs, topp);
    assert forall|x: (u32, usize)| r.contains(x) <==> q.contains(x) by {
        if r.contains(x) {
            let a = choose|a: int| 0 <= a < r.len() && r[a] == x;
            assert(admitted(probs[r[a].1 as int], n, topp));
            assert(q.contains((probs[x.1 as int], x.1 as int as usize)));
        }
        if q.contains(x) {
            let a = choose|a: int| 0 <= a < q.len() && q[a] == x;
            assert(admitted(probs[q[a].1 as int], n, topp));
            assert(r.contains((probs[x.1 as int], x.1 as int as usize)));
        }
    }
    let k = if r.len() <= q.len() {
        r.len() as int
    } else {
        q.len() as int
    };
    lemma_same_ranking_upto(r, q, k);
    if r.len() < q.len() {
        let x = q[k];
        assert(q.contains(x));
        let i = choose|i: int| 0 <= i < r.len() && r[i] == x;
        assert(r.take(k)[i] == q.take(k)[i]);
        assert(ranks_before(q[i], q[k]));
        assert(false);
    }
    if q.len() < r.len() {
        let x = r[k];
        assert(r.contains(x));
        let i = choose|i: int| 0 <= i < q.len() && q[i] == x;
        assert(r.take(k)[i] == q.take(k)[i]);
        assert(ranks_before(r[i], r[k]));
        assert(false);
    }
    assert(r.take(k) =~= r);
    assert(q.take(k) =~= q);
}

} // verus!
