use crabml_core::error::GGUFReaderErrorKind;
use crabml_core::kinds::GGUFValueType;
use crabml_core::reader::GGUFReader;
use crabml_core::sampler::Llama2Sampler;
use crabml_core::value::GGUFValue;
use crabml_core::weights::PROB_ONE;

/// A small generator of numbers that gives the same run every time.
struct Lcg(u64);

impl Lcg {
    fn next(&mut self) -> u64 {
        self.0 = self.0.wrapping_mul(6364136223846793005).wrapping_add(1442695040888963407);
        self.0 >> 11
    }

    fn below(&mut self, n: u64) -> u64 {
        self.next() % n
    }
}

fn distribution(rng: &mut Lcg, n: usize) -> Vec<u32> {
    let raw: Vec<u64> = (0..n).map(|_| if rng.below(4) == 0 { 0 } else { rng.below(1000) }).collect();
    let sum: u64 = raw.iter().sum::<u64>().max(1);
    raw.iter().map(|r| (r * PROB_ONE as u64 / sum) as u32).collect()
}

fn expected_ranking(probs: &[u32], topp: u32) -> Vec<(u32, usize)> {
    let n = probs.len() as u128;
    let mut out: Vec<(u32, usize)> = probs
        .iter()
        .enumerate()
        .filter(|(_, p)| **p as u128 * (n - 1) + topp as u128 >= PROB_ONE as u128)
        .map(|(i, p)| (*p, i))
        .collect();
    out.sort_by_key(|e| e.0);
    out
}

fn expected_topp(probs: &[u32], topp: u32, coin: u32) -> Option<usize> {
    let ranked = expected_ranking(probs, topp);
    if ranked.is_empty() {
        return None;
    }
    let mut cumulative: u128 = 0;
    let mut last = ranked.len() - 1;
    for (i, e) in ranked.iter().enumerate() {
        cumulative += e.0 as u128;
        if cumulative > topp as u128 {
            last = i;
            break;
        }
    }
    let mut cdf: u128 = 0;
    for e in &ranked[..=last] {
        cdf += e.0 as u128;
        if cdf * PROB_ONE as u128 > coin as u128 * cumulative {
            return Some(e.1);
        }
    }
    Some(ranked[last].1)
}

fn expected_multi(probs: &[u32], coin: u32) -> usize {
    let mut cdf: u64 = 0;
    for (i, p) in probs.iter().enumerate() {
        cdf += *p as u64;
        if cdf > coin as u64 {
            return i;
        }
    }
    probs.len() - 1
}

#[test]
fn ranking_agrees_with_filtering_and_a_stable_sort() {
    let mut rng = Lcg(1);
    for round in 0..400 {
        let n = 1 + rng.below(40) as usize;
        let probs = distribution(&mut rng, n);
        let topp = rng.below(PROB_ONE as u64 + 2) as u32;
        let mut scratch = vec![(u32::MAX, usize::MAX); n + 2];
        let n0 = Llama2Sampler::rank_candidates(&probs, topp, &mut scratch);
        let expected = expected_ranking(&probs, topp);
        assert_eq!(&scratch[..n0], &expected[..], "round {}", round);
        assert!(scratch[n0..].iter().all(|e| *e == (u32::MAX, usize::MAX)));
    }
}

#[test]
fn nucleus_choice_agrees_with_a_direct_computation() {
    let mut rng = Lcg(2);
    for round in 0..400 {
        let n = 1 + rng.below(30) as usize;
        let probs = distribution(&mut rng, n);
        let topp = rng.below(PROB_ONE as u64 + 1) as u32;
        let mut scratch = vec![(0u32, 0usize); n];
        for _ in 0..8 {
            let coin = rng.below(PROB_ONE as u64) as u32;
            let got = Llama2Sampler::sample_topp(&probs, topp, &mut scratch, coin);
            match expected_topp(&probs, topp, coin) {
                Some(i) => assert_eq!(got.unwrap(), i, "round {}", round),
                None => assert_eq!(got.unwrap_err().kind(), GGUFReaderErrorKind::Unexpected),
            }
        }
    }
}

#[test]
fn multinomial_choice_agrees_with_a_direct_computation() {
    let mut rng = Lcg(3);
    for round in 0..400 {
        let n = 1 + rng.below(30) as usize;
        let probs = distribution(&mut rng, n);
        for _ in 0..8 {
            let coin = rng.below(PROB_ONE as u64) as u32;
            assert_eq!(
                Llama2Sampler::sample_multi(&probs, coin),
                expected_multi(&probs, coin),
                "round {}",
                round
            );
        }
    }
}

#[test]
fn sampler_picks_one_strategy_by_its_parameters() {
    let mut rng = Lcg(4);
    for _ in 0..300 {
        let n = 1 + rng.below(20) as usize;
        let probs = distribution(&mut rng, n);
        let coin = rng.below(PROB_ONE as u64) as u32;
        let topp = match rng.below(4) {
            0 => 0,
            1 => PROB_ONE,
            _ => 1 + rng.below(PROB_ONE as u64 - 1) as u32,
        };
        let temperature = rng.below(3) as u32 * 500_000_000;
        let mut sampler = Llama2Sampler::new(n, temperature, topp);
        let got = sampler.sample_with_coin(&probs, coin);
        if temperature == 0 {
            assert_eq!(got.unwrap(), Llama2Sampler::sample_argmax(&probs).unwrap());
        } else if topp == 0 || topp >= PROB_ONE {
            assert_eq!(got.unwrap(), expected_multi(&probs, coin));
        } else {
            match expected_topp(&probs, topp, coin) {
                Some(i) => assert_eq!(got.unwrap(), i),
                None => assert_eq!(got.unwrap_err().kind(), GGUFReaderErrorKind::Unexpected),
            }
        }
    }
}

fn scalar_type(rng: &mut Lcg) -> GGUFValueType {
    match rng.below(12) {
        0 => GGUFValueType::U8,
        1 => GGUFValueType::I8,
        2 => GGUFValueType::U16,
        3 => GGUFValueType::I16,
        4 => GGUFValueType::U32,
        5 => GGUFValueType::I32,
        6 => GGUFValueType::F32,
        7 => GGUFValueType::Bool,
        8 => GGUFValueType::String,
        9 => GGUFValueType::U64,
        10 => GGUFValueType::I64,
        _ => GGUFValueType::F64,
    }
}

fn random_value(rng: &mut Lcg, ty: GGUFValueType, depth: u32) -> GGUFValue {
    let bits = rng.next().wrapping_mul(0x9e3779b97f4a7c15);
    match ty {
        GGUFValueType::U8 => GGUFValue::U8(bits as u8),
        GGUFValueType::I8 => GGUFValue::I8(bits as i8),
        GGUFValueType::U16 => GGUFValue::U16(bits as u16),
        GGUFValueType::I16 => GGUFValue::I16(bits as i16),
        GGUFValueType::U32 => GGUFValue::U32(bits as u32),
        GGUFValueType::I32 => GGUFValue::I32(bits as i32),
        GGUFValueType::F32 => GGUFValue::F32(bits as u32),
        GGUFValueType::Bool => GGUFValue::Bool((bits & 1) as u8),
        GGUFValueType::U64 => GGUFValue::U64(bits),
        GGUFValueType::I64 => GGUFValue::I64(bits as i64),
        GGUFValueType::F64 => GGUFValue::F64(bits),
        GGUFValueType::String => {
            let len = rng.below(6);
            let alphabet = ['a', 'Z', '.', '\u{e9}', '\u{4e2d}', '\u{1f980}', '{', '\0'];
            GGUFValue::String((0..len).map(|_| alphabet[rng.below(8) as usize]).collect())
        }
        GGUFValueType::Array => {
            let elem = if depth > 0 && rng.below(3) == 0 {
                GGUFValueType::Array
            } else {
                scalar_type(rng)
            };
            let len = rng.below(5);
            let items = (0..len).map(|_| random_value(rng, elem, depth.saturating_sub(1))).collect();
            GGUFValue::Array(elem, items)
        }
    }
}

fn payload_bytes(v: &GGUFValue, out: &mut Vec<u8>) {
    match v {
        GGUFValue::U8(x) => out.extend_from_slice(&x.to_le_bytes()),
        GGUFValue::I8(x) => out.extend_from_slice(&x.to_le_bytes()),
        GGUFValue::U16(x) => out.extend_from_slice(&x.to_le_bytes()),
        GGUFValue::I16(x) => out.extend_from_slice(&x.to_le_bytes()),
        GGUFValue::U32(x) => out.extend_from_slice(&x.to_le_bytes()),
        GGUFValue::I32(x) => out.extend_from_slice(&x.to_le_bytes()),
        GGUFValue::U64(x) => out.extend_from_slice(&x.to_le_bytes()),
        GGUFValue::I64(x) => out.extend_from_slice(&x.to_le_bytes()),
        GGUFValue::F32(x) => out.extend_from_slice(&f32::from_bits(*x).to_bits().to_le_bytes()),
        GGUFValue::F64(x) => out.extend_from_slice(&f64::from_bits(*x).to_bits().to_le_bytes()),
        GGUFValue::Bool(x) => out.push(*x),
        GGUFValue::String(s) => {
            out.extend_from_slice(&(s.len() as u64).to_le_bytes());
            out.extend_from_slice(s.as_bytes());
        }
        GGUFValue::Array(elem, items) => {
            out.extend_from_slice(&elem.tag().to_le_bytes());
            out.extend_from_slice(&(items.len() as u64).to_le_bytes());
            for item in items {
                payload_bytes(item, out);
            }
        }
    }
}

#[test]
fn values_written_by_hand_are_read_back() {
    let mut rng = Lcg(5);
    for round in 0..500 {
        let ty = if rng.below(2) == 0 { GGUFValueType::Array } else { scalar_type(&mut rng) };
        let value = random_value(&mut rng, ty, 3);
        let mut bytes = value.value_type().tag().to_le_bytes().to_vec();
        payload_bytes(&value, &mut bytes);
        let total = bytes.len();
        let mut reader = GGUFReader::new(bytes.clone());
        assert_eq!(reader.read_value().unwrap(), value, "round {}", round);
        assert_eq!(reader.position(), total);
        // every proper prefix is a short read
        for n in 0..total {
            let mut reader = GGUFReader::new(bytes[..n].to_vec());
            assert_eq!(
                reader.read_value().unwrap_err().kind(),
                GGUFReaderErrorKind::Unexpected,
                "round {} cut at {}",
                round,
                n
            );
        }
    }
}
