use crate::error::GGUFError;
use crate::error::GGUFReaderErrorKind;
use crate::ranking::{
    insert_pos, lemma_insert_pos, lemma_ranking, lemma_ranking_upto, nucleus_cut, nucleus_pick,
    nucleus_pos, ranking, ranking_upto, weights_of,
};
use crate::weights::{
    first_above, is_last_max, lemma_multi_pick, lemma_prefix_sum_bounds, lemma_prefix_sum_member,
    lemma_scaled_weight, multi_pick, normalized, prefix_sum, PROB_ONE,
};
use rand::Rng;
use vstd::prelude::*;

verus! {

/// What a stochastic draw gives for weights `probs`: nothing on an empty
/// input; the multinomial choice where `topp` is zero or at least
/// `PROB_ONE`, which switches nucleus sampling off; the nucleus choice
/// otherwise, which is nothing where no entry is a candidate.
pub open spec fn stochastic_pick(topp: u32, probs: Seq<u32>, coin: u32) -> Option<int> {
    if probs.len() == 0 {
        None
    } else if topp == 0 || topp >= PROB_ONE {
        Some(multi_pick(probs, coin as int))
    } else {
        nucleus_pick(probs, topp, coin)
    }
}

/// `r` hands out the index `pick`, or fails as `Unexpected` where there is
/// none.
pub open spec fn is_outcome(r: Result<usize, GGUFError>, pick: Option<int>) -> bool {
    match pick {
        Some(i) => r matches Ok(j) && j == i,
        None => r matches Err(e) && e.spec_kind() == GGUFReaderErrorKind::Unexpected,
    }
}

/// `rand::Rng::gen_range` on the generator of `rand::thread_rng`, for the
/// range from zero up to `bound`, which must not be empty. The number that
/// comes back is below `bound`; nothing else is known of it. The generator
/// stops the program where the system gives it no seed.
#[verifier::external_body]
fn draw_below(bound: u32) -> (coin: u32)
    requires
        bound > 0,
    ensures
        coin < bound,
{
    rand::thread_rng().gen_range(0..bound)
}

/// The first of the leading `n` entries of `items` at which the running sum
/// of the weights, taken `scale` times, is strictly above `bound`, or `n`
/// where there is none; with it the running sum up to and including that
/// entry, or over all `n`.
fn scan_above(items: &[(u32, usize)], n: usize, scale: u32, bound: u128) -> (r: (usize, u128))
    requires
        n <= items@.len(),
    ensures
        r.0 == first_above(weights_of(items@.take(n as int)), scale as int, bound as int, 0),
        r.0 <= n,
        r.1 == prefix_sum(
            weights_of(items@.take(n as int)),
            if r.0 < n {
                r.0 + 1
            } else {
                n as int
            },
        ),
{
    let ghost w = weights_of(items@.take(n as int));
    let mut cum: u128 = 0;
    let mut k: usize = 0;
    while k < n
        invariant
            k <= n <= items@.len(),
            w == weights_of(items@.take(n as int)),
            cum == prefix_sum(w, k as int),
            cum <= k * 0xFFFF_FFFF,
            first_above(w, scale as int, bound as int, 0) == first_above(
                w,
                scale as int,
                bound as int,
                k as int,
            ),
        decreases n - k,
    {
        assert(w[k as int] == items@[k as int].0);
        cum = cum + items[k].0 as u128;
        assert(cum * scale <= 0xFFFF_FFFF_FFFF_FFFF * 0xFFFF_FFFF * 0xFFFF_FFFF)
            by (nonlinear_arith)
            requires
                0 <= cum <= 0xFFFF_FFFF_FFFF_FFFF * 0xFFFF_FFFF,
                0 <= scale <= 0xFFFF_FFFF,
        ;
        if cum * (scale as u128) > bound {
            return (k, cum);
        }
        k += 1;
    }
    (n, cum)
}

/// Picks one index of a vocabulary from the weights given to its entries.
///
/// Weights are whole numbers: `w` stands for the probability
/// `w / PROB_ONE`, and so do the top-p threshold and the coin. The
/// temperature is only ever tested for being zero here: dividing logits by
/// it and taking their exponentials is floating-point work that is done
/// before the sampler is called, and `normalize` turns the exponentials
/// into a distribution.
pub struct Llama2Sampler {
    prob_index: Vec<(u32, usize)>,
    temperature: u32,
    topp: u32,
}

impl Llama2Sampler {
    /// Greedy choice: the index of the largest weight, the last of them
    /// where several are largest. Fails on an empty input only.
    pub fn sample_argmax(probs: &[u32]) -> (r: Result<usize, GGUFError>)
        ensures
            r is Err <==> probs@.len() == 0,
            r matches Err(e) ==> e.spec_kind() == GGUFReaderErrorKind::Unexpected,
            r matches Ok(i) ==> is_last_max(probs@, i as int),
    {
        if probs.len() == 0 {
            return Err(GGUFError::unexpected("failed to sample from logits"));
        }
        let mut best: usize = 0;
        let mut i: usize = 1;
        while i < probs.len()
            invariant
                1 <= i <= probs.len(),
                is_last_max(probs@.take(i as int), best as int),
            decreases probs.len() - i,
        {
            if probs[i] >= probs[best] {
                best = i;
            }
            i += 1;
        }
        assert(probs@.take(i as int) == probs@);
        Ok(best)
    }

    /// Scales the weights in place so that they add up to `PROB_ONE`, each
    /// rounded down. Weights that add up to zero are left as they are.
    pub fn normalize(weights: &mut [u32])
        ensures
            final(weights)@ == normalized(old(weights)@),
    {
        let n: usize = weights.len();
        let mut sum: u128 = 0;
        let mut i: usize = 0;
        while i < n
            invariant
                i <= n == weights@.len(),
                weights@ == old(weights)@,
                sum == prefix_sum(weights@, i as int),
                sum <= i * 0xFFFF_FFFF,
            decreases n - i,
        {
            sum = sum + weights[i] as u128;
            i += 1;
        }
        if sum == 0 {
            return ;
        }
        let mut i: usize = 0;
        while i < n
            invariant
                i <= n == weights@.len(),
                n == old(weights)@.len(),
                0 < sum == prefix_sum(old(weights)@, n as int),
                forall|j: int| 0 <= j < i ==> weights@[j] == normalized(old(weights)@)[j],
                forall|j: int| i <= j < n ==> weights@[j] == old(weights)@[j],
            decreases n - i,
        {
            let x: u32 = weights[i];
            proof {
                lemma_prefix_sum_member(old(weights)@, i as int);
                lemma_scaled_weight(x as int, sum as int);
            }
            assert((x as u128) * (PROB_ONE as u128) <= 0xFFFF_FFFF * 0xFFFF_FFFF)
                by (nonlinear_arith)
                requires
                    x <= 0xFFFF_FFFF,
                    PROB_ONE <= 0xFFFF_FFFF,
            ;
            weights[i] = ((x as u128) * (PROB_ONE as u128) / sum) as u32;
            i += 1;
        }
        assert(weights@ =~= normalized(old(weights)@));
    }

    /// Multinomial choice: the first index at which the running sum of the
    /// weights is strictly above `coin`, and the last index where the sum
    /// never gets there.
    pub fn sample_multi(probs: &[u32], coin: u32) -> (r: usize)
        requires
            probs@.len() > 0,
        ensures
            r == multi_pick(probs@, coin as int),
            r < probs@.len(),
    {
        proof {
            lemma_multi_pick(probs@, coin as int);
        }
        let mut cdf: u128 = 0;
        let mut i: usize = 0;
        while i < probs.len()
            invariant
                i <= probs.len(),
                cdf == prefix_sum(probs@, i as int),
                cdf <= i * 0xFFFF_FFFF,
                first_above(probs@, 1, coin as int, 0) == first_above(
                    probs@,
                    1,
                    coin as int,
                    i as int,
                ),
            decreases probs.len() - i,
        {
            cdf = cdf + probs[i] as u128;
            if cdf > coin as u128 {
                return i;
            }
            i += 1;
        }
        probs.len() - 1
    }

    /// Fills the front of `prob_index` with the candidates of nucleus
    /// sampling, each weight with its index, lightest first, and returns
    /// their number. Candidates of equal weight stay in the order of their
    /// indices. The rest of `prob_index` is left as it was.
    pub fn rank_candidates(probs: &[u32], topp: u32, prob_index: &mut [(u32, usize)]) -> (n0: usize)
        requires
            old(prob_index)@.len() >= probs@.len(),
        ensures
            n0 == ranking(probs@, topp).len(),
            n0 <= probs@.len(),
            final(prob_index)@.len() == old(prob_index)@.len(),
            final(prob_index)@.take(n0 as int) == ranking(probs@, topp),
            final(prob_index)@.skip(n0 as int) == old(prob_index)@.skip(n0 as int),
    {
        let n: usize = probs.len();
        let mut n0: usize = 0;
        let mut i: usize = 0;
        while i < n
            invariant
                n == probs@.len(),
                n0 <= i <= n,
                prob_index@.len() == old(prob_index)@.len(),
                n <= prob_index@.len(),
                prob_index@.take(n0 as int) == ranking_upto(probs@, topp, i as int),
                prob_index@.skip(n0 as int) == old(prob_index)@.skip(n0 as int),
            decreases n - i,
        {
            let p: u32 = probs[i];
            assert((p as u128) * ((n - 1) as u128) <= 0xFFFF_FFFF * 0xFFFF_FFFF_FFFF_FFFF)
                by (nonlinear_arith)
                requires
                    p <= 0xFFFF_FFFF,
                    0 <= n - 1 <= 0xFFFF_FFFF_FFFF_FFFF,
            ;
            if (p as u128) * ((n - 1) as u128) + (topp as u128) >= (PROB_ONE as u128) {
                let ghost r = prob_index@.take(n0 as int);
                let ghost before = prob_index@;
                let mut j: usize = n0;
                assert(r.take(n0 as int) == r);
                while j > 0 && prob_index[j - 1].0 > p
                    invariant
                        j <= n0 < prob_index@.len(),
                        prob_index@.len() == before.len(),
                        r == before.take(n0 as int),
                        prob_index@.take(j as int) == r.take(j as int),
                        forall|k: int| j <= k < n0 ==> prob_index@[k + 1] == #[trigger] r[k],
                        prob_index@.skip(n0 + 1) == before.skip(n0 + 1),
                        insert_pos(r, p) == insert_pos(r.take(j as int), p),
                    decreases j,
                {
                    let moved: (u32, usize) = prob_index[j - 1];
                    assert(r.take(j as int).drop_last() == r.take(j - 1));
                    assert(r.take(j as int).last() == moved) by {
                        assert(prob_index@.take(j as int)[j - 1] == r.take(j as int)[j - 1]);
                    }
                    prob_index[j] = moved;
                    j -= 1;
                }
                prob_index[j] = (p, i);
                proof {
                    lemma_insert_pos(r.take(j as int), p);
                    if j > 0 {
                        assert(prob_index@.take(j as int)[j - 1] == r.take(j as int)[j - 1]);
                    }
                    assert(insert_pos(r, p) == j);
                    assert(prob_index@.take(n0 + 1) =~= r.insert(j as int, (p, i))) by {
                        assert forall|k: int| 0 <= k < n0 + 1 implies prob_index@.take(n0 + 1)[k]
                            == r.insert(j as int, (p, i))[k] by {
                            if k < j {
                                assert(prob_index@.take(j as int)[k] == r.take(j as int)[k]);
                            } else if k > j {
                                assert(prob_index@[(k - 1) + 1] == r[k - 1]);
                            }
                        }
                    }
                    assert(prob_index@.skip(n0 + 1) =~= old(prob_index)@.skip(n0 + 1)) by {
                        assert forall|k: int| 0 <= k < prob_index@.len() - (n0 + 1) implies
                            #[trigger] prob_index@.skip(n0 + 1)[k] == old(prob_index)@.skip(
                            n0 + 1,
                        )[k] by {
                            assert(before.skip(n0 + 1)[k] == before[n0 + 1 + k]);
                            assert(before.skip(n0 as int)[k + 1] == before[n0 + 1 + k]);
                            assert(old(prob_index)@.skip(n0 as int)[k + 1] == old(
                                prob_index,
                            )@[n0 + 1 + k]);
                        }
                    }
                }
                n0 += 1;
            }
            i += 1;
        }
        proof {
            lemma_ranking_upto(probs@, topp, n as int);
        }
        n0
    }

    /// Nucleus choice. The candidates are the entries whose probability is
    /// at least `(1 - topp) / (n - 1)`, with `n` the number of entries; they
    /// are put in ascending order of weight, and the order is cut behind
    /// the first candidate at which the running sum gets strictly above
    /// `topp`. With `mass` the running sum up to the cut, the choice is the
    /// first candidate whose running sum is strictly above
    /// `coin * mass / PROB_ONE`, and the candidate at the cut where there
    /// is none. Fails where no entry is a candidate.
    ///
    /// `prob_index` is working space: its front holds the ordered
    /// candidates afterwards.
    pub fn sample_topp(
        probs: &[u32],
        topp: u32,
        prob_index: &mut [(u32, usize)],
        coin: u32,
    ) -> (r: Result<usize, GGUFError>)
        requires
            old(prob_index)@.len() >= probs@.len(),
        ensures
            is_outcome(r, nucleus_pick(probs@, topp, coin)),
            r matches Ok(i) ==> i < probs@.len(),
            final(prob_index)@.len() == old(prob_index)@.len(),
            final(prob_index)@.take(ranking(probs@, topp).len() as int) == ranking(probs@, topp),
            final(prob_index)@.skip(ranking(probs@, topp).len() as int) == old(prob_index)@.skip(
                ranking(probs@, topp).len() as int,
            ),
    {
        let n: usize = probs.len();
        let n0: usize = Self::rank_candidates(probs, topp, prob_index);
        if n0 == 0 {
            return Err(GGUFError::unexpected("no candidate to sample from"));
        }
        let ghost r = ranking(probs@, topp);
        let ghost w = weights_of(r);
        let (cut, mass) = scan_above(prob_index, n0, 1, topp as u128);
        let last_idx: usize = if cut < n0 {
            cut
        } else {
            n0 - 1
        };
        assert(last_idx == nucleus_cut(r, topp));
        assert(mass == prefix_sum(w, last_idx + 1));
        proof {
            lemma_prefix_sum_bounds(w, 0, last_idx + 1);
            assert(weights_of(prob_index@.take(last_idx + 1)) =~= w.take(last_idx + 1));
        }
        assert((coin as u128) * mass <= 0xFFFF_FFFF * (0xFFFF_FFFF_FFFF_FFFF * 0xFFFF_FFFF))
            by (nonlinear_arith)
            requires
                0 <= coin <= 0xFFFF_FFFF,
                0 <= mass <= 0xFFFF_FFFF_FFFF_FFFF * 0xFFFF_FFFF,
        ;
        let bound: u128 = (coin as u128) * mass;
        let (k, _) = scan_above(prob_index, last_idx + 1, PROB_ONE, bound);
        let pos: usize = if k <= last_idx {
            k
        } else {
            last_idx
        };
        assert(pos == nucleus_pos(r, topp, coin));
        assert(prob_index@[pos as int] == prob_index@.take(n0 as int)[pos as int]);
        proof {
            lemma_ranking(probs@, topp);
            assert(r[pos as int].1 < n);
        }
        Ok(prob_index[pos].1)
    }

    /// A sampler for a vocabulary of `vocab_size` entries. A temperature of
    /// zero makes it greedy; a `topp` of zero, or of `PROB_ONE` and more,
    /// switches nucleus sampling off.
    pub fn new(vocab_size: usize, temperature: u32, topp: u32) -> (s: Llama2Sampler)
        ensures
            s.spec_vocab_size() == vocab_size,
            s.spec_temperature() == temperature,
            s.spec_topp() == topp,
    {
        Llama2Sampler { prob_index: vec![(0u32, 0usize); vocab_size], temperature, topp }
    }

    /// The number of entries of the vocabulary, for contracts.
    pub closed spec fn spec_vocab_size(&self) -> nat {
        self.prob_index@.len()
    }

    /// The temperature, for contracts.
    pub closed spec fn spec_temperature(&self) -> u32 {
        self.temperature
    }

    /// The top-p threshold, for contracts.
    pub closed spec fn spec_topp(&self) -> u32 {
        self.topp
    }

    pub fn vocab_size(&self) -> (n: usize)
        ensures
            n == self.spec_vocab_size(),
    {
        self.prob_index.len()
    }

    #[verifier::when_used_as_spec(spec_temperature)]
    pub fn temperature(&self) -> (t: u32)
        ensures
            t == self.spec_temperature(),
    {
        self.temperature
    }

    #[verifier::when_used_as_spec(spec_topp)]
    pub fn topp(&self) -> (t: u32)
        ensures
            t == self.spec_topp(),
    {
        self.topp
    }

    /// One draw with the coin given. With a temperature of zero the coin is
    /// not looked at and the choice is greedy. Otherwise `probs` is taken
    /// as the distribution and the choice is multinomial where nucleus
    /// sampling is switched off, and the nucleus choice where it is on:
    /// one of the two is made, never both.
    pub fn sample_with_coin(&mut self, probs: &[u32], coin: u32) -> (r: Result<usize, GGUFError>)
        requires
            probs@.len() == old(self).spec_vocab_size(),
        ensures
            final(self).spec_vocab_size() == old(self).spec_vocab_size(),
            final(self).spec_temperature() == old(self).spec_temperature(),
            final(self).spec_topp() == old(self).spec_topp(),
            r matches Err(e) ==> e.spec_kind() == GGUFReaderErrorKind::Unexpected,
            r matches Ok(i) ==> i < probs@.len(),
            old(self).spec_temperature() == 0 ==> (r is Err <==> probs@.len() == 0),
            old(self).spec_temperature() == 0 ==> (r matches Ok(i) ==> is_last_max(
                probs@,
                i as int,
            )),
            old(self).spec_temperature() != 0 ==> is_outcome(
                r,
                stochastic_pick(old(self).spec_topp(), probs@, coin),
            ),
    {
        if self.temperature == 0 {
            return Self::sample_argmax(probs);
        }
        if probs.len() == 0 {
            return Err(GGUFError::unexpected("failed to sample from logits"));
        }
        if self.topp == 0 || self.topp >= PROB_ONE {
            return Ok(Self::sample_multi(probs, coin));
        }
        Self::sample_topp(probs, self.topp, self.prob_index.as_mut_slice(), coin)
    }

    /// One draw. With a temperature of zero the choice is greedy.
    /// Otherwise a coin below `PROB_ONE` is drawn at random and the choice
    /// is the one that `sample_with_coin` makes for it.
    pub fn sample(&mut self, probs: &[u32]) -> (r: Result<usize, GGUFError>)
        requires
            probs@.len() == old(self).spec_vocab_size(),
        ensures
            final(self).spec_vocab_size() == old(self).spec_vocab_size(),
            final(self).spec_temperature() == old(self).spec_temperature(),
            final(self).spec_topp() == old(self).spec_topp(),
            r matches Err(e) ==> e.spec_kind() == GGUFReaderErrorKind::Unexpected,
            r matches Ok(i) ==> i < probs@.len(),
            old(self).spec_temperature() == 0 ==> (r is Err <==> probs@.len() == 0),
            old(self).spec_temperature() == 0 ==> (r matches Ok(i) ==> is_last_max(
                probs@,
                i as int,
            )),
            old(self).spec_temperature() != 0 ==> exists|coin: u32|
                coin < PROB_ONE && is_outcome(
                    r,
                    #[trigger] stochastic_pick(old(self).spec_topp(), probs@, coin),
                ),
    {
        if self.temperature == 0 {
            return Self::sample_argmax(probs);
        }
        let coin: u32 = draw_below(PROB_ONE);
        self.sample_with_coin(probs, coin)
    }
}

} // verus!
