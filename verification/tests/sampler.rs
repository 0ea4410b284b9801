use crabml_core::binary32::order_key;
use crabml_core::error::GGUFReaderErrorKind;
use crabml_core::sampler::Llama2Sampler;
use crabml_core::weights::PROB_ONE;

fn softmax_weights(logits: &[f32], temperature: f32) -> Vec<u32> {
    let scaled: Vec<f32> = logits.iter().map(|l| l / temperature).collect();
    let max = scaled.iter().cloned().fold(f32::NEG_INFINITY, f32::max);
    let mut weights: Vec<u32> =
        scaled.iter().map(|l| (((l - max) as f64).exp() * 2147483648.0) as u32).collect();
    Llama2Sampler::normalize(&mut weights);
    weights
}

#[test]
fn argmax_returns_index_of_maximum() {
    assert_eq!(Llama2Sampler::sample_argmax(&[3, 9, 4, 1]).unwrap(), 1);
    assert_eq!(Llama2Sampler::sample_argmax(&[7]).unwrap(), 0);
}

#[test]
fn argmax_takes_last_of_equal_maxima() {
    assert_eq!(Llama2Sampler::sample_argmax(&[5, 9, 2, 9, 1]).unwrap(), 3);
    assert_eq!(Llama2Sampler::sample_argmax(&[4, 4, 4]).unwrap(), 2);
}

#[test]
fn argmax_fails_on_empty_input() {
    let err = Llama2Sampler::sample_argmax(&[]).unwrap_err();
    assert_eq!(err.kind(), GGUFReaderErrorKind::Unexpected);
}

#[test]
fn multinomial_with_zero_coin_takes_first_positive_weight() {
    assert_eq!(Llama2Sampler::sample_multi(&[250_000_000, 250_000_000, 500_000_000], 0), 0);
    assert_eq!(Llama2Sampler::sample_multi(&[0, 0, 400_000_000, 600_000_000], 0), 2);
}

#[test]
fn multinomial_falls_back_to_last_index() {
    // the weights add up to less than one, and the coin is not below the sum
    let probs = [333_333_333, 333_333_333, 333_333_333];
    assert_eq!(Llama2Sampler::sample_multi(&probs, 999_999_999), 2);
    assert_eq!(Llama2Sampler::sample_multi(&probs, 999_999_998), 2);
    assert_eq!(Llama2Sampler::sample_multi(&[0, 0, 0], 0), 2);
}

#[test]
fn multinomial_picks_first_index_whose_running_sum_exceeds_coin() {
    let probs = [100_000_000, 200_000_000, 300_000_000, 400_000_000];
    assert_eq!(Llama2Sampler::sample_multi(&probs, 99_999_999), 0);
    assert_eq!(Llama2Sampler::sample_multi(&probs, 100_000_000), 1);
    assert_eq!(Llama2Sampler::sample_multi(&probs, 299_999_999), 1);
    assert_eq!(Llama2Sampler::sample_multi(&probs, 300_000_000), 2);
    assert_eq!(Llama2Sampler::sample_multi(&probs, 600_000_000), 3);
}

#[test]
fn softmax_scenario_with_coin_five_percent_gives_index_one() {
    let weights = softmax_weights(&[1.0, 2.0, 3.0, 4.0], 1.0);
    let expected = [0.0321_f64, 0.0871, 0.2369, 0.6439];
    for (w, e) in weights.iter().zip(expected.iter()) {
        assert!((*w as f64 / PROB_ONE as f64 - e).abs() < 1e-4);
    }
    let coin = (0.05_f64 * PROB_ONE as f64) as u32;
    assert_eq!(Llama2Sampler::sample_multi(&weights, coin), 1);
    let mut sampler = Llama2Sampler::new(4, PROB_ONE, 0);
    assert_eq!(sampler.sample_with_coin(&weights, coin).unwrap(), 1);
    let mut sampler = Llama2Sampler::new(4, PROB_ONE, PROB_ONE);
    assert_eq!(sampler.sample_with_coin(&weights, coin).unwrap(), 1);
}

#[test]
fn new_keeps_its_parameters() {
    let sampler = Llama2Sampler::new(32, 800_000_000, 900_000_000);
    assert_eq!(sampler.vocab_size(), 32);
    assert_eq!(sampler.temperature(), 800_000_000);
    assert_eq!(sampler.topp(), 900_000_000);
}

#[test]
fn rank_candidates_orders_by_weight_and_keeps_ties_in_index_order() {
    let probs = [300_000_000, 100_000_000, 300_000_000, 200_000_000, 100_000_000];
    let mut scratch = vec![(7u32, 7usize); 6];
    let n0 = Llama2Sampler::rank_candidates(&probs, PROB_ONE, &mut scratch);
    assert_eq!(n0, 5);
    assert_eq!(
        &scratch[..5],
        &[
            (100_000_000, 1),
            (100_000_000, 4),
            (200_000_000, 3),
            (300_000_000, 0),
            (300_000_000, 2)
        ]
    );
    assert_eq!(scratch[5], (7, 7));
}

#[test]
fn rank_candidates_drops_what_is_below_the_cutoff() {
    // cutoff = (1 - 0.4) / 2 = 0.3
    let probs = [500_000_000, 300_000_000, 200_000_000];
    let mut scratch = vec![(0u32, 0usize); 3];
    let n0 = Llama2Sampler::rank_candidates(&probs, 400_000_000, &mut scratch);
    assert_eq!(n0, 2);
    assert_eq!(&scratch[..2], &[(300_000_000, 1), (500_000_000, 0)]);
    // an entry just below the cutoff stays out
    let probs = [500_000_000, 299_999_999, 200_000_001];
    let n0 = Llama2Sampler::rank_candidates(&probs, 400_000_000, &mut scratch);
    assert_eq!(n0, 1);
    assert_eq!(scratch[0], (500_000_000, 0));
}

#[test]
fn nucleus_with_top_p_one_admits_the_whole_distribution() {
    let probs = [0, 250_000_000, 0, 750_000_000, 0];
    let mut scratch = vec![(0u32, 0usize); 5];
    let n0 = Llama2Sampler::rank_candidates(&probs, PROB_ONE, &mut scratch);
    assert_eq!(n0, probs.len());
    let mut seen: Vec<usize> = scratch.iter().map(|e| e.1).collect();
    seen.sort();
    assert_eq!(seen, vec![0, 1, 2, 3, 4]);
    for (w, i) in scratch.iter() {
        assert_eq!(*w, probs[*i]);
    }
}

#[test]
fn nucleus_walks_the_candidates_from_the_lightest() {
    let probs = [600_000_000, 100_000_000, 300_000_000];
    let mut scratch = vec![(0u32, 0usize); 3];
    // cutoff 0.05: all three are candidates; the running sum passes 0.9 at the last one
    let pick = |coin: u32, scratch: &mut Vec<(u32, usize)>| {
        Llama2Sampler::sample_topp(&probs, 900_000_000, scratch, coin).unwrap()
    };
    assert_eq!(pick(0, &mut scratch), 1);
    assert_eq!(pick(99_999_999, &mut scratch), 1);
    assert_eq!(pick(100_000_000, &mut scratch), 2);
    assert_eq!(pick(399_999_999, &mut scratch), 2);
    assert_eq!(pick(400_000_000, &mut scratch), 0);
    assert_eq!(pick(999_999_999, &mut scratch), 0);
    assert_eq!(&scratch[..], &[(100_000_000, 1), (300_000_000, 2), (600_000_000, 0)]);
}

#[test]
fn nucleus_rescales_the_coin_by_the_mass_up_to_the_cut() {
    // cutoff 0.3: candidates 0.3 (index 1) and 0.5 (index 0); mass 0.8
    let probs = [500_000_000, 300_000_000, 200_000_000];
    let mut scratch = vec![(0u32, 0usize); 3];
    // 0.3 > coin * 0.8  <=>  coin < 0.375
    assert_eq!(Llama2Sampler::sample_topp(&probs, 400_000_000, &mut scratch, 0).unwrap(), 1);
    assert_eq!(
        Llama2Sampler::sample_topp(&probs, 400_000_000, &mut scratch, 374_999_999).unwrap(),
        1
    );
    assert_eq!(
        Llama2Sampler::sample_topp(&probs, 400_000_000, &mut scratch, 375_000_000).unwrap(),
        0
    );
    assert_eq!(
        Llama2Sampler::sample_topp(&probs, 400_000_000, &mut scratch, 999_999_999).unwrap(),
        0
    );
}

#[test]
fn nucleus_cuts_behind_the_first_candidate_that_passes_top_p() {
    // cutoff 0.35: candidates 0.35 (index 1) and 0.4 (index 0). The order is
    // ascending, so the running sum passes 0.3 at the lighter one already and
    // the heavier one is never chosen.
    let probs = [400_000_000, 350_000_000, 250_000_000];
    let mut scratch = vec![(0u32, 0usize); 3];
    for coin in [0, 1, 500_000_000, 999_999_999] {
        assert_eq!(
            Llama2Sampler::sample_topp(&probs, 300_000_000, &mut scratch, coin).unwrap(),
            1
        );
    }
}

#[test]
fn nucleus_falls_back_to_the_cut_when_the_mass_is_zero() {
    let probs = [0, 0, 0];
    let mut scratch = vec![(0u32, 0usize); 3];
    assert_eq!(Llama2Sampler::sample_topp(&probs, PROB_ONE, &mut scratch, 0).unwrap(), 2);
    // a coin of one and more is never above the rescaled bound either
    let probs = [500_000_000, 500_000_000];
    let mut scratch = vec![(0u32, 0usize); 2];
    assert_eq!(Llama2Sampler::sample_topp(&probs, PROB_ONE, &mut scratch, PROB_ONE).unwrap(), 1);
}

#[test]
fn nucleus_without_candidates_is_unexpected() {
    let probs = [333_333_333, 333_333_333, 333_333_333];
    let mut scratch = vec![(9u32, 9usize); 3];
    let err = Llama2Sampler::sample_topp(&probs, 1, &mut scratch, 0).unwrap_err();
    assert_eq!(err.kind(), GGUFReaderErrorKind::Unexpected);
    assert_eq!(scratch, vec![(9, 9); 3]);
    let err = Llama2Sampler::sample_topp(&[], 500_000_000, &mut scratch, 0).unwrap_err();
    assert_eq!(err.kind(), GGUFReaderErrorKind::Unexpected);
}

#[test]
fn nucleus_on_one_entry() {
    let mut scratch = vec![(0u32, 0usize); 1];
    assert_eq!(Llama2Sampler::sample_topp(&[PROB_ONE], PROB_ONE, &mut scratch, 5).unwrap(), 0);
    let err = Llama2Sampler::sample_topp(&[PROB_ONE], 500_000_000, &mut scratch, 5).unwrap_err();
    assert_eq!(err.kind(), GGUFReaderErrorKind::Unexpected);
}

#[test]
fn zero_temperature_is_greedy_whatever_the_coin() {
    let probs = [100_000_000, 500_000_000, 400_000_000, 500_000_000];
    let mut sampler = Llama2Sampler::new(4, 0, 900_000_000);
    for coin in [0, 123_456_789, 999_999_999] {
        assert_eq!(sampler.sample_with_coin(&probs, coin).unwrap(), 3);
    }
    assert_eq!(sampler.sample(&probs).unwrap(), 3);
    let mut empty = Llama2Sampler::new(0, 0, 900_000_000);
    assert_eq!(empty.sample(&[]).unwrap_err().kind(), GGUFReaderErrorKind::Unexpected);
}

#[test]
fn top_p_switched_off_gives_the_multinomial_choice_only() {
    // Here the two strategies differ: multinomial gives index 0 for this coin,
    // nucleus sampling would give the lightest candidate first.
    let probs = [600_000_000, 100_000_000, 300_000_000];
    let coin = 50_000_000;
    assert_eq!(Llama2Sampler::sample_multi(&probs, coin), 0);
    let mut scratch = vec![(0u32, 0usize); 3];
    assert_eq!(Llama2Sampler::sample_topp(&probs, 900_000_000, &mut scratch, coin).unwrap(), 1);
    for topp in [0, PROB_ONE, PROB_ONE + 1, u32::MAX] {
        let mut sampler = Llama2Sampler::new(3, PROB_ONE, topp);
        assert_eq!(sampler.sample_with_coin(&probs, coin).unwrap(), 0);
    }
    let mut sampler = Llama2Sampler::new(3, PROB_ONE, 900_000_000);
    assert_eq!(sampler.sample_with_coin(&probs, coin).unwrap(), 1);
}

#[test]
fn stochastic_draw_on_empty_input_is_unexpected() {
    let mut sampler = Llama2Sampler::new(0, PROB_ONE, 0);
    assert_eq!(
        sampler.sample_with_coin(&[], 0).unwrap_err().kind(),
        GGUFReaderErrorKind::Unexpected
    );
    let mut sampler = Llama2Sampler::new(0, PROB_ONE, 500_000_000);
    assert_eq!(sampler.sample(&[]).unwrap_err().kind(), GGUFReaderErrorKind::Unexpected);
}

#[test]
fn sample_draws_a_coin_below_one() {
    // With a coin below one the first entry is always chosen; a coin of one
    // would pass it by and give the second.
    let probs = [PROB_ONE, 5];
    assert_eq!(Llama2Sampler::sample_multi(&probs, PROB_ONE), 1);
    let mut sampler = Llama2Sampler::new(2, PROB_ONE, 0);
    for _ in 0..200 {
        assert_eq!(sampler.sample(&probs).unwrap(), 0);
    }
}

#[test]
fn sample_stays_inside_the_vocabulary_and_reaches_every_entry() {
    let probs = [250_000_000, 250_000_000, 250_000_000, 250_000_000];
    let mut sampler = Llama2Sampler::new(4, PROB_ONE, 0);
    let mut seen = [false; 4];
    for _ in 0..2000 {
        let i = sampler.sample(&probs).unwrap();
        assert!(i < 4);
        seen[i] = true;
    }
    assert_eq!(seen, [true; 4]);
    let mut sampler = Llama2Sampler::new(4, PROB_ONE, 950_000_000);
    for _ in 0..200 {
        assert!(sampler.sample(&probs).unwrap() < 4);
    }
}

#[test]
fn order_keys_follow_the_order_of_the_numbers() {
    let numbers = [
        f32::NEG_INFINITY,
        f32::MIN,
        -1.0e10,
        -2.5,
        -1.0,
        -f32::MIN_POSITIVE,
        -1.0e-45,
        -0.0,
        0.0,
        1.0e-45,
        f32::MIN_POSITIVE,
        0.5,
        1.0,
        1.0000001,
        3.0e10,
        f32::MAX,
        f32::INFINITY,
    ];
    for a in numbers {
        for b in numbers {
            let (ka, kb) = (order_key(a.to_bits()), order_key(b.to_bits()));
            assert_eq!(a < b, ka < kb, "{} and {}", a, b);
            assert_eq!(a == b, ka == kb, "{} and {}", a, b);
        }
    }
    assert_eq!(order_key(0), 0x8000_0000);
    assert_eq!(order_key(0x8000_0000), 0x8000_0000);
    assert_eq!(order_key(1), 0x8000_0001);
    assert_eq!(order_key(0x8000_0001), 0x7fff_ffff);
    assert_eq!(order_key(0xffff_ffff), 1);
    assert_eq!(order_key(0x7fff_ffff), 0xffff_ffff);
}

#[test]
fn greedy_choice_over_order_keys_is_the_largest_logit() {
    let logits = [-1.5f32, 3.25, -7.0, 3.25, 0.0];
    let keys: Vec<u32> = logits.iter().map(|l| order_key(l.to_bits())).collect();
    assert_eq!(Llama2Sampler::sample_argmax(&keys).unwrap(), 3);
    let zeros = [0.0f32, -0.0];
    let keys: Vec<u32> = zeros.iter().map(|l| order_key(l.to_bits())).collect();
    assert_eq!(Llama2Sampler::sample_argmax(&keys).unwrap(), 1);
}

#[test]
fn normalize_scales_the_weights_to_one() {
    let mut w = [1, 1, 2];
    Llama2Sampler::normalize(&mut w);
    assert_eq!(w, [250_000_000, 250_000_000, 500_000_000]);
    let mut w = [7, 7, 7];
    Llama2Sampler::normalize(&mut w);
    assert_eq!(w, [333_333_333, 333_333_333, 333_333_333]);
    let mut w = [u32::MAX, 0, u32::MAX, u32::MAX, u32::MAX];
    Llama2Sampler::normalize(&mut w);
    assert_eq!(w, [250_000_000, 0, 250_000_000, 250_000_000, 250_000_000]);
    let mut w = [5];
    Llama2Sampler::normalize(&mut w);
    assert_eq!(w, [PROB_ONE]);
    let mut w = [3 * PROB_ONE / 4, PROB_ONE / 4];
    Llama2Sampler::normalize(&mut w);
    assert_eq!(w, [750_000_000, 250_000_000]);
}

#[test]
fn normalize_leaves_weights_that_add_up_to_zero() {
    let mut w = [0, 0, 0];
    Llama2Sampler::normalize(&mut w);
    assert_eq!(w, [0, 0, 0]);
    let mut w: [u32; 0] = [];
    Llama2Sampler::normalize(&mut w);
    assert_eq!(w, []);
}

#[test]
fn normalized_weights_add_up_to_one_within_the_rounding() {
    let mut state: u64 = 99;
    for _ in 0..300 {
        let mut w = Vec::new();
        let n = 1 + (state >> 40) % 50;
        for _ in 0..n {
            state = state.wrapping_mul(6364136223846793005).wrapping_add(1442695040888963407);
            w.push(if (state >> 20) % 5 == 0 { 0 } else { (state >> 32) as u32 });
        }
        if w.iter().all(|x| *x == 0) {
            continue;
        }
        let before = w.clone();
        Llama2Sampler::normalize(&mut w);
        let sum: u64 = w.iter().map(|x| *x as u64).sum();
        assert!(sum <= PROB_ONE as u64);
        assert!(sum + (w.len() as u64) > PROB_ONE as u64);
        let total: u128 = before.iter().map(|x| *x as u128).sum();
        for (x, y) in before.iter().zip(w.iter()) {
            assert!(*y <= PROB_ONE);
            assert_eq!(*y as u128, *x as u128 * PROB_ONE as u128 / total);
        }
    }
}
