//! Tensors, their layout, and the host reference model.

use super_gemma::forward::{forward, Conventions, Op, Tap, Value};
use super_gemma::layout::{le_words, repack_rows, Quant};
use super_gemma::reference::{
    check_rope_factors, head_plan, kv_row_at, token_major, CpuKvCache,
};
use super_gemma::shape::{Geometry, LayerKind, ModelDesc};
use super_gemma::stage::prefill_tap;
use super_gemma::weights::{
    f32_tensor, tensor_bytes, upload, weights_of, RefError, Tensor, TensorInfo, UploadError, Weight,
    Q6K_ROW_WORDS,
};

fn desc() -> ModelDesc {
    ModelDesc {
        n_layers: 2,
        layer_kinds: vec![LayerKind::Sliding, LayerKind::Global],
        sliding: Geometry {
            head_dim: 4,
            n_kv_heads: 2,
        },
        global: Geometry {
            head_dim: 8,
            n_kv_heads: 1,
        },
        sliding_window: 3,
        vocab_size: 10,
        hidden_size: 6,
        ffn_size: 12,
        n_q_heads: 4,
    }
}

fn infos() -> Vec<TensorInfo> {
    weights_of(&desc().layer_kinds)
        .into_iter()
        .map(|w| TensorInfo {
            name: w.name(),
            dtype: w.dtype().to_owned(),
        })
        .collect()
}

#[test]
fn tensors_have_their_names_and_types() {
    assert_eq!(
        Weight::Layer(12, Tensor::AttnQNorm).name(),
        "blk.12.attn_q_norm.weight"
    );
    assert_eq!(
        Weight::Layer(0, Tensor::LayerOutputScale).name(),
        "blk.0.layer_output_scale.weight"
    );
    assert_eq!(Weight::Layer(3, Tensor::FfnDown).dtype(), "Q4_0");
    assert_eq!(Weight::Layer(3, Tensor::PostFfwNorm).dtype(), "F32");
    assert_eq!(Weight::TokenEmbd.name(), "token_embd.weight");
    assert_eq!(Weight::TokenEmbd.dtype(), "Q6_K");
    assert_eq!(Weight::OutputNorm.name(), "output_norm.weight");
    assert_eq!(Weight::RopeFreqs.name(), "rope_freqs.weight");
    assert_eq!(Tensor::AttnV.suffix(), "attn_v");
}

#[test]
fn only_sliding_layers_have_values_of_their_own() {
    let all = weights_of(&desc().layer_kinds);
    assert_eq!(all.len(), 14 + 13 + 3);
    assert_eq!(all[0], Weight::Layer(0, Tensor::LayerOutputScale));
    assert!(all.contains(&Weight::Layer(0, Tensor::AttnV)));
    assert!(!all.contains(&Weight::Layer(1, Tensor::AttnV)));
    assert_eq!(
        all[27..],
        [Weight::TokenEmbd, Weight::OutputNorm, Weight::RopeFreqs]
    );
}

#[test]
fn a_complete_file_is_taken() {
    let list = upload(&infos(), &desc()).unwrap();
    for (k, (w, i)) in list.iter().enumerate() {
        assert_eq!(k, *i);
        assert_eq!(*w, weights_of(&desc().layer_kinds)[k]);
    }
    assert_eq!(
        tensor_bytes(&infos(), Weight::OutputNorm).unwrap(),
        list.len() - 2
    );
}

#[test]
fn the_first_missing_or_wrong_tensor_is_named() {
    let mut files = infos();
    files.remove(5);
    let e = upload(&files, &desc()).unwrap_err();
    assert_eq!(e.message(), "tensor `blk.0.ffn_norm.weight` missing from GGUF");
    assert!(matches!(
        e,
        UploadError::Model(RefError::MissingTensor(_))
    ));

    let mut files = infos();
    files[7].dtype = "F16".to_owned();
    files.pop();
    let e = upload(&files, &desc()).unwrap_err();
    assert_eq!(
        e.message(),
        "tensor `blk.0.attn_q.weight`: dtype F16 != expected Q4_0"
    );
    assert_eq!(UploadError::Gpu("lost".to_owned()).message(), "lost");
}

#[test]
fn bytes_make_little_endian_words() {
    assert_eq!(
        le_words(&[1, 2, 3, 4, 255, 255, 255, 255, 9]),
        [0x0403_0201, 0xFFFF_FFFF]
    );
    assert!(le_words(&[]).is_empty());
}

#[test]
fn repacked_rows_start_at_words() {
    let row_bytes = Quant::Q6K.row_len(5376);
    assert_eq!(row_bytes, 4410);
    let src: Vec<u8> = (0..2 * row_bytes).map(|i| (i % 251) as u8).collect();
    let words = repack_rows(&src, row_bytes, 2);
    assert_eq!(words.len(), 2 * Q6K_ROW_WORDS);
    for r in 0..2 {
        for j in 0..4416 {
            let byte = words[r * Q6K_ROW_WORDS + j / 4].to_le_bytes()[j % 4];
            let want = if j < row_bytes {
                src[r * row_bytes + j]
            } else {
                0
            };
            assert_eq!(byte, want);
        }
    }
}

#[test]
fn rows_of_blocks_have_their_ranges() {
    assert_eq!(Quant::Q4.row_len(5376), 5376 / 32 * 18);
    assert_eq!(Quant::Q6K.row_range(3, 5376), (3 * 4410, 4 * 4410));
    assert_eq!(Quant::Q4.row_range(2, 64), (72, 108));
}

/// Attention over the rows that the library plans, in floats.
fn attention(
    q: &[f32],
    ck: &[f32],
    cv: &[f32],
    n: usize,
    q0: usize,
    n_q_heads: usize,
    n_kv: usize,
    hd: usize,
    window: Option<usize>,
    scale: f32,
) -> Vec<f32> {
    let mut out = vec![0.0f32; n * n_q_heads * hd];
    for i in 0..n * n_q_heads {
        let p = head_plan(i, q0, n_q_heads, n_kv, hd, window);
        let qr = &q[p.row..][..hd];
        let rows: Vec<usize> = (p.lo..=p.q_pos)
            .map(|kp| kv_row_at(kp, p.kv_head, n_kv, hd))
            .collect();
        let scores: Vec<f64> = rows
            .iter()
            .map(|&at| {
                let dot: f64 = qr
                    .iter()
                    .zip(&ck[at..][..hd])
                    .map(|(&a, &b)| a as f64 * b as f64)
                    .sum();
                dot * scale as f64
            })
            .collect();
        let max = scores.iter().cloned().fold(f64::NEG_INFINITY, f64::max);
        let weights: Vec<f64> = scores.iter().map(|s| (s - max).exp()).collect();
        let sum: f64 = weights.iter().sum();
        for (w, &at) in weights.iter().zip(&rows) {
            for j in 0..hd {
                out[p.row + j] += (w / sum * cv[at + j] as f64) as f32;
            }
        }
    }
    out
}

#[test]
fn softmax_attention_uniform_when_keys_equal() {
    // 2 kv heads, 4 q heads, head_dim 2, 3 cached tokens, all keys
    // identical → uniform weights → output = mean of values.
    let hd = 2;
    let ck = vec![1.0f32; 3 * 2 * hd];
    let cv: Vec<f32> = (0..3 * 2 * hd).map(|i| i as f32).collect();
    let q = vec![1.0f32; 4 * hd];
    let out = attention(&q, &ck, &cv, 1, 2, 4, 2, hd, None, 1.0);
    // kv head 0 values at dim 0: tokens 0,1,2 → 0, 4, 8 → mean 4.
    assert!((out[0] - 4.0).abs() < 1e-6);
    // q heads 2,3 read kv head 1: dim 0 values 2, 6, 10 → mean 6.
    assert!((out[2 * hd] - 6.0).abs() < 1e-6);
}

#[test]
fn sliding_window_masks_old_keys() {
    // window 2: query at pos 2 sees keys {1, 2} only.
    let hd = 1;
    let ck = vec![1.0f32, 1.0, 1.0]; // 1 kv head, 3 tokens
    let cv = vec![10.0f32, 20.0, 30.0];
    let q = vec![1.0f32];
    let out = attention(&q, &ck, &cv, 1, 2, 1, 1, hd, Some(2), 1.0);
    assert!((out[0] - 25.0).abs() < 1e-6); // mean of 20, 30
}

#[test]
fn heads_see_their_window() {
    let p = head_plan(9, 100, 4, 2, 8, Some(16));
    assert_eq!((p.token, p.head, p.kv_head), (2, 1, 0));
    assert_eq!((p.row, p.lo, p.q_pos), (72, 87, 102));
    assert_eq!(head_plan(3, 0, 4, 2, 8, Some(16)).lo, 0);
    assert_eq!(head_plan(3, 0, 4, 2, 8, None).kv_head, 1);
    assert_eq!(kv_row_at(5, 1, 2, 8), 88);
}

#[test]
fn rows_turn_into_tokens() {
    assert_eq!(token_major(&[1u8, 2, 3, 4, 5, 6], 2, 3), [1u8, 4, 2, 5, 3, 6]);
    assert!(token_major::<u8>(&[], 0, 3).is_empty());
}

#[test]
fn the_cache_keeps_every_token() {
    let mut c: CpuKvCache<u8> = CpuKvCache::new(&desc());
    assert!(c.is_empty());
    c.append(0, &[1, 2], &[3]);
    c.append(1, &[4], &[5]);
    c.append(0, &[6], &[]);
    c.advance(2);
    assert_eq!(c.len(), 2);
    assert!(!c.is_empty());
    assert_eq!(c.keys(0), &[1, 2, 6]);
    assert_eq!(c.values(0), &[3]);
    assert_eq!(c.keys(1), &[4]);
}

#[test]
fn float_tensors_are_looked_up_by_name() {
    let mut list = infos();
    let at = list
        .iter()
        .position(|i| i.name == "rope_freqs.weight")
        .unwrap();
    assert_eq!(f32_tensor(&list, "rope_freqs.weight").unwrap(), at);
    list[at].dtype = "Q4_0".to_owned();
    assert_eq!(
        f32_tensor(&list, "rope_freqs.weight").unwrap_err().message(),
        "tensor `rope_freqs.weight`: dtype Q4_0 != F32"
    );
    assert_eq!(
        f32_tensor(&list, "nope").unwrap_err().message(),
        "tensor `nope` missing from GGUF"
    );
}

fn factors(list: &[f32]) -> (Vec<u32>, Vec<String>) {
    (
        list.iter().map(|f| f.to_bits()).collect(),
        list.iter().map(|f| format!("{f}")).collect(),
    )
}

#[test]
fn rotation_factors_have_the_pinned_shape() {
    let check = |list: &[f32]| {
        let (bits, shown) = factors(list);
        check_rope_factors(&bits, &shown, 16).map_err(|e| e.message())
    };
    let big = 1e30f32;
    assert_eq!(
        check(&[1.0, 1.0, big, big, 1e20, f32::INFINITY, big, big]),
        Ok(())
    );
    assert_eq!(
        check(&[1.0, 1.0]),
        Err("tensor `rope_freqs.weight`: 2 entries, expected 8".to_owned())
    );
    assert_eq!(
        check(&[1.0, 1.5, big, big, big, big, big, big]),
        Err("tensor `rope_freqs.weight`: factor[1] = 1.5, outside the pinned shape".to_owned())
    );
    for bad in [1.0f32, 9e19, -1e30, f32::NAN, f32::NEG_INFINITY] {
        assert_eq!(
            check(&[1.0, 1.0, big, bad, big, big, big, big]),
            Err(format!(
                "tensor `rope_freqs.weight`: factor[3] = {bad}, outside the pinned shape"
            ))
        );
    }
}

#[test]
fn a_forward_pass_is_tapped_at_named_points() {
    let c = Conventions::pinned(73.32121f32.to_bits());
    assert_eq!(c.attn_scale, 1.0f32.to_bits());
    let ops = forward(&desc(), &c);
    let taps: Vec<(&str, Option<usize>)> = ops
        .iter()
        .filter_map(|op| match op {
            Op::Tap { point, layer, .. } => Some((point.name(), *layer)),
            _ => None,
        })
        .collect();
    let per_layer = [
        "attn_norm",
        "q_rope",
        "k_rope",
        "v_norm",
        "attn_out",
        "post_attn_norm",
        "h_attn",
        "ffn_norm",
        "ffn_out",
        "post_ffn_norm",
        "layer_out",
    ];
    let mut want = vec![("embed", None)];
    for layer in 0..2 {
        want.extend(per_layer.iter().map(|t| (*t, Some(layer))));
    }
    want.push(("final_norm", None));
    want.push(("logits", None));
    assert_eq!(taps, want);
    for name in per_layer {
        assert!(prefill_tap(name, LayerKind::Sliding).is_ok());
    }
    assert_eq!(Tap::Embed.name(), "embed");
}

#[test]
fn a_forward_pass_follows_layer_kinds_and_conventions() {
    let mut c = Conventions::pinned(0);
    let ops = forward(&desc(), &c);
    assert_eq!(ops.len(), 2 + 2 * 35 + 6);
    assert!(ops.contains(&Op::Attend {
        layer: 0,
        n_kv: 2,
        dim: 4,
        window: Some(3)
    }));
    assert!(ops.contains(&Op::Attend {
        layer: 1,
        n_kv: 1,
        dim: 8,
        window: None
    }));
    assert!(ops.contains(&Op::MatMul {
        weight: Weight::Layer(0, Tensor::AttnV),
        n_in: 6,
        n_out: 8,
        x: Value::Xn,
        y: Value::V
    }));
    let copies = ops
        .iter()
        .filter(|op| {
            matches!(
                op,
                Op::Copy {
                    from: Value::K,
                    to: Value::V
                }
            )
        })
        .count();
    assert_eq!(copies, 1);
    c.v_norm = false;
    c.layer_output_scale = false;
    assert_eq!(forward(&desc(), &c).len(), 2 + 2 * 33 + 6);
}
