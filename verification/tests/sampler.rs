//! Sampling: the draw itself is float arithmetic and stands here; candidates,
//! their order, the passes and the random numbers are the library's.

use super_gemma::sampler::{
    after_pass, argmax, candidates, final_k, initial_k, select_top, Pass, Sampler,
};

#[derive(Clone, Copy)]
struct Params {
    temperature: f32,
    top_k: u32,
    top_p: f32,
}

impl Default for Params {
    fn default() -> Self {
        Self {
            temperature: 1.0,
            top_k: 64,
            top_p: 0.95,
        }
    }
}

fn bits(logits: &[f32]) -> Vec<u32> {
    logits.iter().map(|v| v.to_bits()).collect()
}

fn sample(s: &mut Sampler, logits: &[f32], p: &Params) -> u32 {
    let keys = bits(logits);
    if p.temperature <= 0.0 {
        return argmax(&keys);
    }
    let n = logits.len();
    let t = p.temperature as f64;
    let mut k = initial_k(p.top_k, n);
    let most = final_k(p.top_k, n);
    let full_total: Option<f64> = if p.top_p < 1.0 && (p.top_k == 0 || k < most) {
        let max = logits.iter().cloned().fold(f32::NEG_INFINITY, f32::max) as f64;
        let mass = |v: f32| ((v as f64 - max) / t).exp();
        Some(if p.top_k == 0 {
            logits.iter().map(|&v| mass(v)).sum()
        } else {
            candidates(&keys, most)
                .iter()
                .map(|&id| mass(logits[id as usize]))
                .sum()
        })
    } else {
        None
    };
    loop {
        let cand = candidates(&keys, k);
        let max = logits[cand[0] as usize] as f64;
        let probs: Vec<f64> = cand
            .iter()
            .map(|&id| ((logits[id as usize] as f64 - max) / t).exp())
            .collect();
        let total: f64 = probs.iter().sum();
        let mut reached = None;
        if p.top_p < 1.0 {
            let target = p.top_p as f64 * full_total.unwrap_or(total);
            let mut acc = 0.0;
            for (i, &q) in probs.iter().enumerate() {
                acc += q;
                if acc >= target {
                    reached = Some(i);
                    break;
                }
            }
        }
        match after_pass(p.top_p < 1.0, p.top_k, reached, cand.len(), n) {
            Pass::Widen(wider) => k = wider,
            Pass::Keep(keep) => {
                let total_kept: f64 = probs[..keep].iter().sum();
                let mut r = s.next_53() as f64 * (1.0 / (1u64 << 53) as f64) * total_kept;
                for (i, &q) in probs[..keep].iter().enumerate() {
                    r -= q;
                    if r <= 0.0 {
                        return cand[i];
                    }
                }
                return cand[keep - 1];
            }
        }
    }
}

#[test]
fn greedy_is_argmax_with_low_id_ties() {
    let mut s = Sampler::new(7);
    let p = Params {
        temperature: 0.0,
        ..Default::default()
    };
    assert_eq!(sample(&mut s, &[0.1, 3.0, 3.0, -1.0], &p), 1);
}

#[test]
fn top_k_one_is_always_argmax() {
    let mut s = Sampler::new(7);
    let p = Params {
        temperature: 1.5,
        top_k: 1,
        top_p: 1.0,
    };
    for _ in 0..100 {
        assert_eq!(sample(&mut s, &[0.0, 1.0, 5.0, 2.0], &p), 2);
    }
}

#[test]
fn tiny_top_p_keeps_only_the_top_token() {
    let mut s = Sampler::new(7);
    let p = Params {
        temperature: 1.0,
        top_k: 0,
        top_p: 0.01,
    };
    for _ in 0..100 {
        assert_eq!(sample(&mut s, &[2.0, 1.0, 0.0, -1.0], &p), 0);
    }
}

#[test]
fn same_seed_same_sequence() {
    let logits: Vec<f32> = (0..1000).map(|i| ((i * 37) % 17) as f32 * 0.3).collect();
    let p = Params::default();
    let draw = |seed: u64| -> Vec<u32> {
        let mut s = Sampler::new(seed);
        (0..50).map(|_| sample(&mut s, &logits, &p)).collect()
    };
    assert_eq!(draw(42), draw(42));
    assert_ne!(draw(42), draw(43));
}

#[test]
fn distribution_matches_expected_probabilities() {
    // 4 tokens with logits ln(1), ln(2), ln(3), ln(4) → probs 0.1,
    // 0.2, 0.3, 0.4. Chi-squared over 100k draws, 3 dof: critical
    // value at p=0.001 is 16.27.
    let logits = [0.0f32, 2.0f32.ln(), 3.0f32.ln(), 4.0f32.ln()];
    let expected = [0.1, 0.2, 0.3, 0.4];
    let n = 100_000usize;
    let mut counts = [0usize; 4];
    let mut s = Sampler::new(0xDEC0DE);
    let p = Params {
        temperature: 1.0,
        top_k: 0,
        top_p: 1.0,
    };
    for _ in 0..n {
        counts[sample(&mut s, &logits, &p) as usize] += 1;
    }
    let chi2: f64 = counts
        .iter()
        .zip(&expected)
        .map(|(&c, &e)| {
            let exp = e * n as f64;
            (c as f64 - exp).powi(2) / exp
        })
        .sum();
    assert!(chi2 < 16.27, "chi² {chi2:.2} (counts {counts:?})");
}

#[test]
fn temperature_sharpens_and_flattens() {
    let logits = [0.0f32, 1.0];
    let count_top = |temp: f32, seed: u64| {
        let mut s = Sampler::new(seed);
        let p = Params {
            temperature: temp,
            top_k: 0,
            top_p: 1.0,
        };
        (0..20_000)
            .filter(|_| sample(&mut s, &logits, &p) == 1)
            .count()
    };
    let cold = count_top(0.25, 1); // p(top) = 1/(1+e^-4) ≈ 0.982
    let hot = count_top(4.0, 2); // p(top) = 1/(1+e^-0.25) ≈ 0.562
    assert!(cold > 19_300, "cold draws {cold}");
    assert!((10_600..11_900).contains(&hot), "hot draws {hot}");
}

#[test]
fn top_p_expands_past_the_working_set_when_needed() {
    // 4096 equal logits, top_p 0.9: the prefix needs ~3687 tokens —
    // more than the 1024 working set, forcing expansion.
    let logits = vec![1.0f32; 4096];
    let mut s = Sampler::new(99);
    let p = Params {
        temperature: 1.0,
        top_k: 0,
        top_p: 0.9,
    };
    let mut seen_high = false;
    for _ in 0..200 {
        if sample(&mut s, &logits, &p) >= 1024 {
            seen_high = true;
            break;
        }
    }
    assert!(seen_high, "samples never escaped the initial working set");
}

#[test]
fn explicit_top_k_caps_the_candidate_set() {
    // With top_k = 2, ids 2 and 3 (the two largest) are the only
    // possible outcomes even at high temperature.
    let logits = [1.0f32, 1.1, 5.0, 4.9];
    let mut s = Sampler::new(5);
    let p = Params {
        temperature: 10.0,
        top_k: 2,
        top_p: 1.0,
    };
    for _ in 0..200 {
        assert!(sample(&mut s, &logits, &p) >= 2);
    }
}

#[test]
fn seeding_follows_splitmix() {
    // The first outputs of splitmix64 from 0 are public reference values.
    let words: [u64; 4] = [
        0xE220A8397B1DCDAF,
        0x6E789E6AA1B965F4,
        0x06C45D188009454F,
        0xF88BB8A8724C81EC,
    ];
    let mut s = Sampler::new(0);
    let first = words[0]
        .wrapping_add(words[3])
        .rotate_left(23)
        .wrapping_add(words[0]);
    assert_eq!(s.next_u64(), first);
    let mut s = Sampler::new(0);
    assert_eq!(s.next_53(), first >> 11);
}

#[test]
fn argmax_ignores_nan_and_takes_the_first() {
    assert_eq!(argmax(&bits(&[1.0, f32::NAN, 2.0])), 2);
    assert_eq!(argmax(&bits(&[f32::NAN, 2.0])), 0);
    assert_eq!(argmax(&bits(&[-0.0, 0.0])), 0);
    assert_eq!(argmax(&bits(&[-2.0, -1.0, -1.0])), 1);
    assert_eq!(argmax(&[]), 0);
}

#[test]
fn candidates_are_sorted_with_ties_by_id() {
    let logits = [1.0f32, 3.0, 3.0, -1.0, 2.0];
    assert_eq!(candidates(&bits(&logits), 3), [1, 2, 4]);
    assert_eq!(candidates(&bits(&logits), 5), [1, 2, 4, 0, 3]);
    assert_eq!(candidates(&bits(&[-0.0f32, 0.0]), 2), [1, 0]);
    let mut top = select_top(&bits(&logits), 2);
    top.sort();
    assert_eq!(top, [1, 2]);
    // More than there are gives all.
    let mut all = select_top(&bits(&logits), 99);
    all.sort();
    assert_eq!(all, [0, 1, 2, 3, 4]);
    assert_eq!(candidates(&bits(&logits), 99), [1, 2, 4, 0, 3]);
    assert!(select_top(&[], 3).is_empty());
}

#[test]
fn working_set_starts_at_most_at_its_cap() {
    assert_eq!(initial_k(0, 5000), 1024);
    assert_eq!(initial_k(0, 10), 10);
    assert_eq!(initial_k(64, 5000), 64);
    assert_eq!(initial_k(4000, 5000), 1024);
}

#[test]
fn passes_keep_or_widen() {
    assert_eq!(after_pass(true, 0, Some(2), 10, 100), Pass::Keep(3));
    assert_eq!(after_pass(true, 0, None, 10, 100), Pass::Widen(40));
    assert_eq!(after_pass(true, 0, None, 30, 100), Pass::Widen(100));
    assert_eq!(after_pass(true, 10, None, 10, 100), Pass::Keep(10));
    assert_eq!(after_pass(false, 0, None, 10, 100), Pass::Keep(10));
    assert_eq!(after_pass(true, 0, None, 100, 100), Pass::Keep(100));
    // A top-k past the working set is what it widens to.
    assert_eq!(after_pass(true, 3000, None, 1024, 9000), Pass::Widen(3000));
    assert_eq!(after_pass(true, 8000, None, 1024, 9000), Pass::Widen(4096));
    assert_eq!(after_pass(true, 8000, None, 1024, 2000), Pass::Widen(2000));
    assert_eq!(after_pass(true, 3000, None, 3000, 9000), Pass::Keep(3000));
    assert_eq!(final_k(0, 50), 50);
    assert_eq!(final_k(7, 50), 7);
    assert_eq!(final_k(70, 50), 50);
}

#[test]
fn top_p_expands_a_large_top_k_past_the_working_set() {
    // Of 4096 equal logits the first 2000 are let through; 0.9 of them is
    // the prefix that is drawn from.
    let logits = vec![1.0f32; 4096];
    let mut s = Sampler::new(99);
    let p = Params {
        temperature: 1.0,
        top_k: 2000,
        top_p: 0.9,
    };
    let draws: Vec<u32> = (0..400).map(|_| sample(&mut s, &logits, &p)).collect();
    assert!(draws.iter().any(|&id| id >= 1024));
    assert!(draws.iter().all(|&id| id <= 1800));
}

#[test]
fn widening_adds_candidates_behind() {
    let logits: Vec<f32> = (0..200).map(|i| ((i * 37) % 17) as f32).collect();
    let keys = bits(&logits);
    let all = candidates(&keys, 200);
    for k in [1, 5, 64, 199] {
        assert_eq!(candidates(&keys, k), all[..k]);
    }
}
