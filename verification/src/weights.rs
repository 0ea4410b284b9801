use vstd::prelude::*;

verus! {

/// The weight that stands for probability one. A weight `w` stands for the
/// probability `w / PROB_ONE`.
pub const PROB_ONE: u32 = 1_000_000_000;

/// The sum of the first `k` weights of `w`.
pub open spec fn prefix_sum(w: Seq<u32>, k: int) -> int
    decreases k,
{
    if k <= 0 {
        0
    } else {
        prefix_sum(w, k - 1) + w[k - 1]
    }
}

/// The first position at or after `from` at which the running sum of `w`,
/// taken `scale` times, is strictly above `bound`; the length of `w` where
/// there is none.
pub open spec fn first_above(w: Seq<u32>, scale: int, bound: int, from: int) -> int
    decreases w.len() - from,
{
    if from < 0 || from >= w.len() {
        w.len() as int
    } else if prefix_sum(w, from + 1) * scale > bound {
        from
    } else {
        first_above(w, scale, bound, from + 1)
    }
}

/// `first_above`, with the last position in place of the length where the
/// running sum never gets above `bound`.
pub open spec fn first_above_or_last(w: Seq<u32>, scale: int, bound: int) -> int {
    let k = first_above(w, scale, bound, 0);
    if k < w.len() {
        k
    } else {
        w.len() - 1
    }
}

/// The index that multinomial sampling gives for `coin`: the first whose
/// running sum is strictly above `coin`, else the last.
pub open spec fn multi_pick(probs: Seq<u32>, coin: int) -> int {
    first_above_or_last(probs, 1, coin)
}

/// `i` is the last index at which `w` has its largest weight.
pub open spec fn is_last_max(w: Seq<u32>, i: int) -> bool {
    &&& 0 <= i < w.len()
    &&& forall|j: int| 0 <= j < w.len() ==> w[j] <= w[i]
    &&& forall|j: int| i < j < w.len() ==> w[j] < w[i]
}

/// A running sum is at least zero, grows with its length, and each weight
/// adds less than 2^32 to it.
pub proof fn lemma_prefix_sum_bounds(w: Seq<u32>, j: int, k: int)
    requires
        0 <= j <= k <= w.len(),
    ensures
        0 <= prefix_sum(w, j) <= prefix_sum(w, k),
        prefix_sum(w, k) <= k * 0xFFFF_FFFF,
    decreases k,
{
    if k > 0 {
        if j < k {
            lemma_prefix_sum_bounds(w, j, k - 1);
        } else {
            lemma_prefix_sum_bounds(w, j - 1, k - 1);
        }
    }
}

/// What `first_above` finds: nothing before it is above the bound, and
/// where it is a position, the running sum there is.
pub proof fn lemma_first_above(w: Seq<u32>, scale: int, bound: int, from: int)
    requires
        0 <= from <= w.len(),
    ensures
        from <= first_above(w, scale, bound, from) <= w.len(),
        forall|k: int|
            from < k <= first_above(w, scale, bound, from) ==> #[trigger] prefix_sum(w, k)
                * scale <= bound,
        first_above(w, scale, bound, from) < w.len() ==> prefix_sum(
            w,
            first_above(w, scale, bound, from) + 1,
        ) * scale > bound,
    decreases w.len() - from,
{
    if from < w.len() && !(prefix_sum(w, from + 1) * scale > bound) {
        lemma_first_above(w, scale, bound, from + 1);
    }
}

/// A position whose running sum is above the bound, with none before it
/// from `from` on, is the one that `first_above` finds.
pub proof fn lemma_first_above_is(w: Seq<u32>, scale: int, bound: int, from: int, k: int)
    requires
        0 <= from <= k < w.len(),
        forall|j: int| from < j <= k ==> #[trigger] prefix_sum(w, j) * scale <= bound,
        prefix_sum(w, k + 1) * scale > bound,
    ensures
        first_above(w, scale, bound, from) == k,
    decreases k - from,
{
    if from < k {
        assert(prefix_sum(w, from + 1) * scale <= bound);
        lemma_first_above_is(w, scale, bound, from + 1, k);
    }
}

/// Where no running sum from `from` on is above the bound, `first_above`
/// finds nothing.
pub proof fn lemma_first_above_none(w: Seq<u32>, scale: int, bound: int, from: int)
    requires
        0 <= from <= w.len(),
        forall|j: int| from < j <= w.len() ==> #[trigger] prefix_sum(w, j) * scale <= bound,
    ensures
        first_above(w, scale, bound, from) == w.len(),
    decreases w.len() - from,
{
    if from < w.len() {
        assert(prefix_sum(w, from + 1) * scale <= bound);
        lemma_first_above_none(w, scale, bound, from + 1);
    }
}

/// With a coin of zero, multinomial sampling gives the first index whose
/// weight is above zero, and the last index where every weight is zero.
pub proof fn lemma_multi_pick_coin_zero(probs: Seq<u32>)
    requires
        probs.len() > 0,
    ensures
        0 <= multi_pick(probs, 0) < probs.len(),
        forall|j: int| 0 <= j < multi_pick(probs, 0) ==> probs[j] == 0,
        probs[multi_pick(probs, 0)] > 0 || multi_pick(probs, 0) == probs.len() - 1,
        probs[0] > 0 ==> multi_pick(probs, 0) == 0,
{
    let k = first_above(probs, 1, 0, 0);
    lemma_first_above(probs, 1, 0, 0);
    assert forall|j: int| 0 <= j < k implies probs[j] == 0 by {
        assert(prefix_sum(probs, j + 1) * 1 <= 0);
        lemma_prefix_sum_bounds(probs, j, j + 1);
    }
    if k < probs.len() {
        assert(probs[k] > 0) by {
            if k > 0 {
                assert(prefix_sum(probs, k) * 1 <= 0);
            }
        }
    }
}

/// Where the weights together do not get above the coin, multinomial
/// sampling gives the last index.
pub proof fn lemma_multi_pick_fallback(probs: Seq<u32>, coin: int)
    requires
        probs.len() > 0,
        prefix_sum(probs, probs.len() as int) <= coin,
    ensures
        multi_pick(probs, coin) == probs.len() - 1,
{
    assert forall|j: int| 0 < j <= probs.len() implies #[trigger] prefix_sum(probs, j) * 1
        <= coin by {
        lemma_prefix_sum_bounds(probs, j, probs.len() as int);
    }
    lemma_first_above_none(probs, 1, coin, 0);
}

/// Multinomial sampling gives an index of `probs`: the first whose running
/// sum is above the coin, and the last where there is none.
pub proof fn lemma_multi_pick(probs: Seq<u32>, coin: int)
    requires
        probs.len() > 0,
    ensures
        0 <= multi_pick(probs, coin) < probs.len(),
        forall|j: int| 0 < j <= multi_pick(probs, coin) ==> #[trigger] prefix_sum(probs, j) <= coin,
        prefix_sum(probs, multi_pick(probs, coin) + 1) > coin || multi_pick(probs, coin)
            == probs.len() - 1,
{
    lemma_first_above(probs, 1, coin, 0);
    assert forall|j: int| 0 < j <= multi_pick(probs, coin) implies #[trigger] prefix_sum(
        probs,
        j,
    ) <= coin by {
        assert(prefix_sum(probs, j) * 1 <= coin);
    }
}

/// At most one index is the last at which `w` has its largest weight.
pub proof fn lemma_last_max_unique(w: Seq<u32>, i: int, j: int)
    requires
        is_last_max(w, i),
        is_last_max(w, j),
    ensures
        i == j,
{
    assert(w[j] <= w[i]);
    assert(w[i] <= w[j]);
}

/// The weights of `w` scaled so that they add up to `PROB_ONE`, each
/// rounded down; `w` itself where its weights add up to zero.
pub open spec fn normalized(w: Seq<u32>) -> Seq<u32> {
    let sum = prefix_sum(w, w.len() as int);
    if sum == 0 {
        w
    } else {
        Seq::new(w.len(), |i: int| (w[i] * PROB_ONE / sum) as u32)
    }
}

/// No weight is above the sum of all.
pub proof fn lemma_prefix_sum_member(w: Seq<u32>, i: int)
    requires
        0 <= i < w.len(),
    ensures
        w[i] <= prefix_sum(w, w.len() as int),
{
    lemma_prefix_sum_bounds(w, 0, i);
    lemma_prefix_sum_bounds(w, i + 1, w.len() as int);
}

/// A weight scaled by `PROB_ONE` over the sum is at most `PROB_ONE`, and
/// the rounding takes less than one from it.
pub proof fn lemma_scaled_weight(x: int, sum: int)
    requires
        0 <= x <= sum,
        0 < sum,
    ensures
        0 <= x * PROB_ONE / sum <= PROB_ONE,
        x * PROB_ONE - sum < sum * (x * PROB_ONE / sum) <= x * PROB_ONE,
{
    let y = x * PROB_ONE;
    assert(0 <= y <= sum * PROB_ONE) by (nonlinear_arith)
        requires
            0 <= x <= sum,
            y == x * PROB_ONE,
    ;
    vstd::arithmetic::div_mod::lemma_fundamental_div_mod(y, sum);
    vstd::arithmetic::div_mod::lemma_mod_bound(y, sum);
    let q = y / sum;
    assert(0 <= q <= PROB_ONE) by (nonlinear_arith)
        requires
            0 <= y <= sum * PROB_ONE,
            0 < sum,
            y - sum < sum * q <= y,
    ;
}

/// The running sums of the scaled weights stay within the number of
/// roundings of the scaled running sums.
proof fn lemma_normalized_prefix(w: Seq<u32>, k: int)
    requires
        0 <= k <= w.len(),
        prefix_sum(w, w.len() as int) > 0,
    ensures
        prefix_sum(w, k) * PROB_ONE - k * prefix_sum(w, w.len() as int) <= prefix_sum(
            w,
            w.len() as int,
        ) * prefix_sum(normalized(w), k) <= prefix_sum(w, k) * PROB_ONE,
        k > 0 ==> prefix_sum(w, k) * PROB_ONE - k * prefix_sum(w, w.len() as int) < prefix_sum(
            w,
            w.len() as int,
        ) * prefix_sum(normalized(w), k),
    decreases k,
{
    let sum = prefix_sum(w, w.len() as int);
    let q = normalized(w);
    if k > 0 {
        lemma_normalized_prefix(w, k - 1);
        lemma_prefix_sum_member(w, k - 1);
        lemma_scaled_weight(w[k - 1] as int, sum);
        let a = prefix_sum(w, k - 1);
        let b = prefix_sum(q, k - 1);
        let x = w[k - 1] as int;
        let y = q[k - 1] as int;
        assert(y == x * PROB_ONE / sum);
        assert((a + x) * PROB_ONE == a * PROB_ONE + x * PROB_ONE) by (nonlinear_arith);
        assert(sum * (b + y) == sum * b + sum * y) by (nonlinear_arith);
        assert(k * sum == (k - 1) * sum + sum) by (nonlinear_arith);
    }
}

/// Scaled weights form a distribution: each is at most `PROB_ONE`, and
/// together they are at most `PROB_ONE` and less than one rounding per
/// weight below it.
pub proof fn lemma_normalized_sum(w: Seq<u32>)
    requires
        prefix_sum(w, w.len() as int) > 0,
    ensures
        normalized(w).len() == w.len(),
        forall|i: int| 0 <= i < w.len() ==> #[trigger] normalized(w)[i] <= PROB_ONE,
        PROB_ONE - w.len() < prefix_sum(normalized(w), w.len() as int) <= PROB_ONE,
{
    let sum = prefix_sum(w, w.len() as int);
    let n = w.len() as int;
    let total = prefix_sum(normalized(w), n);
    assert forall|i: int| 0 <= i < w.len() implies #[trigger] normalized(w)[i] <= PROB_ONE by {
        lemma_prefix_sum_member(w, i);
        lemma_scaled_weight(w[i] as int, sum);
    }
    lemma_normalized_prefix(w, n);
    assert(n > 0);
    assert(PROB_ONE - n < total <= PROB_ONE) by (nonlinear_arith)
        requires
            sum > 0,
            sum * PROB_ONE - n * sum < sum * total <= sum * PROB_ONE,
    ;
}

} // verus!
