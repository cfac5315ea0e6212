//! Graphs, chunks and staging of the device model.

use super_gemma::graph::{
    decode_graph, record_layer, record_logits, Binding, Buffer, Dispatch, Extent, Groups, Kernel,
    Push, Slot, ONE_BITS,
};
use super_gemma::model::{Action, GpuModel, GraphKey};
use super_gemma::prefill::{
    logits_batch, logits_batches, norm_all, prefill_chunks, prefill_layers, record_prefill,
    record_prefill_layer, record_prefill_logits, Chunk, ChunkShape, LogitsMode,
};
use super_gemma::shape::{pad_rows, Geometry, LayerKind, ModelDesc, HIDDEN};
use super_gemma::stage::{
    chunk_positions, decode_buffer, decode_step_state, live_prefixes, prefill_buffer,
    prefill_step_state, prefill_tap, store_len, Element, StepState,
};
use super_gemma::weights::Tensor;

fn desc(n_layers: usize) -> ModelDesc {
    ModelDesc {
        n_layers,
        layer_kinds: (0..n_layers)
            .map(|i| {
                if i % 6 == 5 {
                    LayerKind::Global
                } else {
                    LayerKind::Sliding
                }
            })
            .collect(),
        sliding: Geometry {
            head_dim: 256,
            n_kv_heads: 16,
        },
        global: Geometry {
            head_dim: 512,
            n_kv_heads: 4,
        },
        sliding_window: 1024,
        vocab_size: 262_144,
        hidden_size: 5376,
        ffn_size: 21504,
        n_q_heads: 32,
    }
}

fn model(n_layers: usize, cap: usize, max_chunk: usize) -> GpuModel {
    GpuModel::new(
        desc(n_layers),
        (0..n_layers as u32).collect(),
        false,
        cap,
        max_chunk,
    )
}

fn kernels(plan: &[Dispatch]) -> Vec<&'static str> {
    plan.iter().map(|d| d.kernel.name()).collect()
}

fn buffers(d: &Dispatch) -> Vec<Buffer> {
    d.bindings.iter().map(|b| b.buffer).collect()
}

#[test]
fn a_sliding_layer_decodes_in_order() {
    let mut plan = Vec::new();
    record_layer(&desc(6), 0, 77, &mut plan);
    assert_eq!(
        kernels(&plan),
        [
            "rmsnorm_5376",
            "gemv_q4_0_k5376",
            "gemv_q4_0_k5376",
            "gemv_q4_0_k5376",
            "rmsnorm_256",
            "rmsnorm_256",
            "rmsnorm_256",
            "rope_sliding_q",
            "rope_sliding_k",
            "kv_append_sliding",
            "kv_append_sliding",
            "attn_decode_sliding",
            "attn_reduce_d256",
            "gemv_q4_0_k8192",
            "rmsnorm_5376",
            "add_scaled",
            "rmsnorm_5376",
            "gemv_q4_0_k5376",
            "gemv_q4_0_k5376",
            "geglu",
            "gemv_q4_0_k21504",
            "rmsnorm_5376",
            "add_scaled",
        ]
    );
    assert_eq!(plan[1].groups, Groups::Exact(8192, 1, 1));
    assert_eq!(plan[2].groups, Groups::Exact(4096, 1, 1));
    assert_eq!(plan[4].groups, Groups::Exact(32, 1, 1));
    assert_eq!(plan[5].groups, Groups::Exact(16, 1, 1));
    assert_eq!(plan[7].groups, Groups::Covering(32 * 128));
    assert_eq!(plan[8].groups, Groups::Covering(16 * 128));
    assert_eq!(plan[9].groups, Groups::Covering(4096));
    assert_eq!(plan[11].push, Push::Words(16, 0x3f80_0000));
    assert_eq!(plan[11].groups, Groups::Exact(16, 16, 1));
    assert_eq!(plan[12].push, Push::Word(16));
    assert_eq!(plan[15].push, Push::Word(ONE_BITS));
    assert_eq!(plan[22].push, Push::Word(77));
    assert_eq!(
        buffers(&plan[6]),
        [
            Buffer::Decode(Slot::Vp),
            Buffer::NormOnes,
            Buffer::Decode(Slot::V(LayerKind::Sliding)),
        ]
    );
    assert_eq!(
        buffers(&plan[22]),
        [
            Buffer::Decode(Slot::X2),
            Buffer::Decode(Slot::Fn2),
            Buffer::Decode(Slot::X),
        ]
    );
}

#[test]
fn a_global_layer_takes_values_from_the_key_projection() {
    let mut plan = Vec::new();
    record_layer(&desc(6), 5, 1, &mut plan);
    assert_eq!(plan.len(), 22);
    let kind = LayerKind::Global;
    assert_eq!(
        buffers(&plan[5]),
        [
            Buffer::Decode(Slot::Kp(kind)),
            Buffer::NormOnes,
            Buffer::Decode(Slot::V(kind)),
        ]
    );
    assert_eq!(plan[6].groups, Groups::Covering(32 * 64));
    assert_eq!(plan[7].groups, Groups::Covering(4 * 64));
    assert_eq!(plan[10].push, Push::Words(32, ONE_BITS));
    assert_eq!(plan[12].kernel, Kernel::Gemv16384);
    for d in &plan {
        assert!(!buffers(d).contains(&Buffer::Weight(5, Tensor::AttnV)));
    }
}

#[test]
fn a_decode_graph_is_its_layers_and_the_head() {
    let d = desc(7);
    let scales: Vec<u32> = (0..7).collect();
    let all = decode_graph(&d, &scales, 0, 7, true);
    assert_eq!(all.len(), 6 * 23 + 22 + 2);
    let none = decode_graph(&d, &scales, 3, 3, false);
    assert!(none.is_empty());
    let mut head = Vec::new();
    record_logits(&d, &mut head);
    assert_eq!(kernels(&head), ["rmsnorm_5376", "gemv_q6_k_logits"]);
    assert_eq!(head[1].groups, Groups::Exact(262_144, 1, 1));
    assert_eq!(
        kernels(&model(7, 100, 64).record(0, 7, true)),
        kernels(&all)
    );
}

fn shape() -> ChunkShape {
    ChunkShape {
        m_pad: 128,
        n_real: 100,
        max_chunk: 256,
    }
}

#[test]
fn a_sliding_chunk_attends_before_it_appends() {
    let mut plan = Vec::new();
    record_prefill_layer(&desc(6), 0, shape(), false, 9, &mut plan);
    assert_eq!(
        kernels(&plan),
        [
            "rmsnorm_5376",
            "touch",
            "gemm_q4_0_k5376_n8192",
            "gemm_q4_0_k5376_n4096",
            "gemm_q4_0_k5376_n4096",
            "rmsnorm_256",
            "rmsnorm_256",
            "rmsnorm_256",
            "rope_sliding_q",
            "rope_sliding_k",
            "attn_prefill_sliding_ring",
            "kv_append_sliding",
            "kv_append_sliding",
            "touch",
            "gemm_q4_0_k8192_n5376",
            "rmsnorm_5376",
            "add_scaled",
            "rmsnorm_5376",
            "touch",
            "gemm_q4_0_k5376_n21504",
            "gemm_q4_0_k5376_n21504",
            "geglu",
            "touch",
            "gemm_q4_0_k21504_n5376",
            "rmsnorm_5376",
            "add_scaled",
        ]
    );
    assert_eq!(plan[0].groups, Groups::Exact(128, 1, 1));
    assert_eq!(plan[2].groups, Groups::Exact(128, 2, 1));
    assert_eq!(plan[5].groups, Groups::Exact(128 * 32, 1, 1));
    assert_eq!(plan[10].groups, Groups::Exact(16, 128, 1));
    assert_eq!(
        plan[11].bindings[0],
        Binding {
            buffer: Buffer::Prefill(Slot::K(LayerKind::Sliding)),
            extent: Extent::Range(0, 100 * 4096),
        }
    );
    assert_eq!(plan[11].groups, Groups::Covering(100 * 4096));
    assert_eq!(plan[21].groups, Groups::Covering(256 * 21504));
    assert_eq!(plan[25].groups, Groups::Covering(256 * 5376));
    assert_eq!(plan[25].push, Push::Word(9));
}

#[test]
fn a_global_chunk_appends_before_it_attends() {
    let mut plan = Vec::new();
    record_prefill_layer(&desc(6), 5, shape(), false, 9, &mut plan);
    let names = kernels(&plan);
    assert_eq!(
        names[9..12],
        [
            "kv_append_global",
            "kv_append_global",
            "attn_prefill_global"
        ]
    );
    assert_eq!(plan[9].groups, Groups::Covering(100 * 2048));
}

#[test]
fn quantized_products_run_in_blocks_of_half_the_rows() {
    let mut plan = Vec::new();
    record_prefill_layer(&desc(6), 0, shape(), true, 9, &mut plan);
    let names = kernels(&plan);
    assert_eq!(
        names[17..28],
        [
            "rmsnorm_5376",
            "touch",
            "kv_quant_q8",
            "touch",
            "gemm_q4_0_i8_t22_k5376_n21504",
            "gemm_q4_0_i8_t22_k5376_n21504",
            "geglu",
            "kv_quant_q8",
            "touch",
            "gemm_q4_0_i8_t22_k21504_n5376",
            "rmsnorm_5376",
        ]
    );
    assert_eq!(plan[19].groups, Groups::Covering(128 * 5376 / 32));
    assert_eq!(plan[21].groups, Groups::Exact(21504 / 32, 4, 1));
    assert_eq!(plan[26].groups, Groups::Exact(5376 / 32, 4, 1));
}

#[test]
fn every_product_reads_behind_a_touch() {
    for layer in [0, 5] {
        for int8 in [false, true] {
            let mut plan = Vec::new();
            record_prefill_layer(&desc(6), layer, shape(), int8, 9, &mut plan);
            for (i, d) in plan.iter().enumerate() {
                if d.kernel.name().starts_with("gemm") {
                    let x = d.bindings[1].buffer;
                    let touch = plan[..i]
                        .iter()
                        .rposition(|t| t.kernel == Kernel::Touch && t.bindings[0].buffer == x);
                    let touch = touch.expect("no touch");
                    for between in &plan[touch + 1..i] {
                        assert_ne!(between.bindings.last().unwrap().buffer, x);
                    }
                }
            }
        }
    }
}

#[test]
fn segments_hold_six_layers_each() {
    let d = desc(14);
    let scales: Vec<u32> = (0..14).collect();
    let segments = record_prefill(&d, &scales, shape(), false, LogitsMode::Last);
    assert_eq!(segments.len(), 3);
    let sizes: Vec<usize> = segments.iter().map(|s| s.len()).collect();
    assert_eq!(sizes, [5 * 26 + 25, 5 * 26 + 25, 2 * 26 + 2]);
    let plain = record_prefill(&d, &scales, shape(), false, LogitsMode::Nothing);
    assert_eq!(plain[2].len(), 2 * 26);
    assert_eq!(
        kernels(&prefill_layers(&d, &scales, shape(), false, 12, 14)),
        kernels(&plain[2])
    );
    let mut head = Vec::new();
    record_prefill_logits(&d, 100, &mut head);
    assert_eq!(
        head[0].bindings[0].extent,
        Extent::Range(99 * 5376, 100 * 5376)
    );
    assert_eq!(head[1].bindings[2].buffer, Buffer::Decode(Slot::Logits));
    assert_eq!(model(14, 100, 64).record_prefill_chunk_plain().len(), 3);
    assert_eq!(model(14, 100, 64).record_prefill_layers(0, 2, 64, 9).len(), 52);
    let timed = model(14, 100, 64);
    assert_eq!(
        kernels(&timed.record_prefill_kernel_profiled(4, 6)),
        kernels(&timed.record_prefill_layers(4, 6, 64, 64))
    );
    assert_eq!(
        kernels(&timed.record_layers_kernel_profiled(4, 6)),
        kernels(&timed.record(4, 6, false))
    );
}

#[test]
fn segments_join_into_all_layers() {
    let d = desc(14);
    let scales: Vec<u32> = (0..14).collect();
    let whole: Vec<String> = prefill_layers(&d, &scales, shape(), false, 0, 14)
        .iter()
        .map(|s| format!("{:?}", s))
        .collect();
    let joined: Vec<String> = record_prefill(&d, &scales, shape(), false, LogitsMode::Nothing)
        .iter()
        .flatten()
        .map(|s| format!("{:?}", s))
        .collect();
    assert_eq!(whole.len(), 12 * 26 + 2 * 25);
    assert_eq!(joined, whole);
}

#[test]
fn a_prompt_is_cut_into_padded_chunks() {
    assert_eq!(
        prefill_chunks(600, 256, true),
        [
            Chunk {
                start: 0,
                n_real: 256,
                m_pad: 256,
                mode: LogitsMode::Nothing
            },
            Chunk {
                start: 256,
                n_real: 256,
                m_pad: 256,
                mode: LogitsMode::Nothing
            },
            Chunk {
                start: 512,
                n_real: 88,
                m_pad: 128,
                mode: LogitsMode::Last
            },
        ]
    );
    assert_eq!(prefill_chunks(0, 256, true), []);
    assert_eq!(
        prefill_chunks(64, 64, false),
        [Chunk {
            start: 0,
            n_real: 64,
            m_pad: 64,
            mode: LogitsMode::Nothing
        }]
    );
    assert_eq!(pad_rows(1), 64);
    assert_eq!(pad_rows(64), 64);
    assert_eq!(pad_rows(0), 0);
}

#[test]
fn all_logits_run_in_batches_of_rows() {
    assert_eq!(logits_batches(70), [(0, 32), (32, 32), (64, 6)]);
    assert_eq!(logits_batches(0), []);
    let d = desc(6);
    let plan = logits_batch(&d, 32, 2);
    assert_eq!(plan.len(), 2);
    assert_eq!(
        plan[1].bindings[1].extent,
        Extent::Range(33 * HIDDEN as u64, 34 * HIDDEN as u64)
    );
    assert_eq!(
        plan[1].bindings[2],
        Binding {
            buffer: Buffer::LogitsAll,
            extent: Extent::Range(33 * 262_144, 34 * 262_144),
        }
    );
    let norm = norm_all(128);
    assert_eq!(norm[0].groups, Groups::Exact(128, 1, 1));
    assert_eq!(buffers(&norm[0])[2], Buffer::Prefill(Slot::Xn));
    assert_eq!(buffers(&plan[0])[1], Buffer::Prefill(Slot::Xn));
}

#[test]
fn prefill_records_once_and_advances() {
    let mut m = model(6, 1000, 100);
    assert_eq!(m.max_chunk, 128);
    let full = GraphKey::Prefill(128, 128, LogitsMode::Nothing);
    let tail = GraphKey::Prefill(64, 44, LogitsMode::Last);
    let want = [
        Action::Record(full),
        Action::StageChunk {
            start: 0,
            len: 128,
            pos: 0,
        },
        Action::Submit(full),
        Action::Advance(128),
        Action::StageChunk {
            start: 128,
            len: 128,
            pos: 128,
        },
        Action::Submit(full),
        Action::Advance(128),
        Action::Record(tail),
        Action::StageChunk {
            start: 256,
            len: 44,
            pos: 256,
        },
        Action::Submit(tail),
        Action::Advance(44),
        Action::ReadLogits,
    ];
    let actions = m.prefill(300);
    assert_eq!(actions, want);
    for a in actions {
        m.done(a);
    }
    assert_eq!(m.pos, 300);
    assert_eq!(m.recorded, [full, tail]);

    // A replay from the same position stages and submits the same.
    m.reset();
    assert_eq!(m.pos, 0);
    let again: Vec<Action> = want
        .into_iter()
        .filter(|a| !matches!(a, Action::Record(_)))
        .collect();
    assert_eq!(m.prefill(300), again);
}

#[test]
fn all_logits_are_taken_chunk_by_chunk() {
    let mut m = model(6, 1000, 64);
    let key = GraphKey::Prefill(64, 40, LogitsMode::Nothing);
    let actions = m.prefill_all_logits(40);
    assert_eq!(
        actions,
        [
            Action::AllocateLogits,
            Action::Record(key),
            Action::StageChunk {
                start: 0,
                len: 40,
                pos: 0
            },
            Action::Submit(key),
            Action::Advance(40),
            Action::Record(GraphKey::NormAll(64)),
            Action::Submit(GraphKey::NormAll(64)),
            Action::Record(GraphKey::LogitsBatch(0, 32)),
            Action::Submit(GraphKey::LogitsBatch(0, 32)),
            Action::Record(GraphKey::LogitsBatch(32, 8)),
            Action::Submit(GraphKey::LogitsBatch(32, 8)),
            Action::TakeLogits(40 * 262_144),
        ]
    );
    for a in actions {
        m.done(a);
    }
    assert!(m.logits_all);
    assert_eq!(m.prefill_all_logits(0), []);
    let second = m.prefill_all_logits(40);
    assert!(!second
        .iter()
        .any(|a| matches!(a, Action::Record(_) | Action::AllocateLogits)));
}

#[test]
fn keys_lead_to_their_graphs() {
    let m = model(7, 1000, 64);
    assert_eq!(
        m.graph_of(GraphKey::Prefill(64, 3, LogitsMode::Last)).len(),
        2
    );
    assert_eq!(m.graph_of(GraphKey::NormAll(64))[0].len(), 1);
    assert_eq!(m.graph_of(GraphKey::LogitsBatch(0, 32))[0].len(), 32);
    assert_eq!(
        kernels(&m.graph_of(GraphKey::Decode)[0]),
        kernels(&m.record(0, 7, true))
    );
}

#[test]
fn a_token_is_staged_submitted_and_read() {
    let mut m = model(6, 1000, 64);
    m.advance();
    assert_eq!(
        m.decode_step(17),
        [
            Action::StageToken { token: 17, pos: 1 },
            Action::Submit(GraphKey::Decode),
            Action::Advance(1),
            Action::ReadLogits,
        ]
    );
    assert_eq!(
        m.stage_token(),
        StepState {
            pos: 1,
            kv_len_sliding: 2,
            kv_len_global: 2,
            q0: 0
        }
    );
    let (state, positions) = m.stage_prefill_chunk(3);
    assert_eq!(state, prefill_step_state(1));
    assert_eq!(positions, [1, 2, 3]);
}

#[test]
fn the_window_bounds_what_a_token_sees() {
    assert_eq!(decode_step_state(0, 1024).kv_len_sliding, 1);
    assert_eq!(decode_step_state(1022, 1024).kv_len_sliding, 1023);
    assert_eq!(decode_step_state(1023, 1024).kv_len_sliding, 1024);
    assert_eq!(
        decode_step_state(5000, 1024),
        StepState {
            pos: 5000,
            kv_len_sliding: 1024,
            kv_len_global: 5001,
            q0: 0
        }
    );
    assert_eq!(
        prefill_step_state(9),
        StepState {
            pos: 9,
            kv_len_sliding: 0,
            kv_len_global: 0,
            q0: 9
        }
    );
    assert!(chunk_positions(5, 0).is_empty());
}

#[test]
fn rotation_tables_keep_their_live_part() {
    assert_eq!(
        live_prefixes(&[1u8, 2, 3, 4, 5, 6, 7, 8, 9], 4, 2),
        [1, 2, 5, 6]
    );
    assert!(live_prefixes::<u8>(&[], 4, 2).is_empty());
    assert!(live_prefixes(&[1u8, 2], 2, 0).is_empty());
}

#[test]
fn buffers_have_their_sizes() {
    let d = desc(6);
    let sl = LayerKind::Sliding;
    let gl = LayerKind::Global;
    assert_eq!(decode_buffer(&d, Slot::X), Some((Element::Half, 5376)));
    assert_eq!(decode_buffer(&d, Slot::Q(gl)), Some((Element::Half, 16384)));
    assert_eq!(decode_buffer(&d, Slot::Vp), Some((Element::Half, 4096)));
    assert_eq!(
        decode_buffer(&d, Slot::Part(sl)),
        Some((Element::Single, 32 * 16 * 258))
    );
    assert_eq!(
        decode_buffer(&d, Slot::Part(gl)),
        Some((Element::Single, 32 * 32 * 514))
    );
    assert_eq!(
        decode_buffer(&d, Slot::CosSin(gl)),
        Some((Element::Single, 128))
    );
    assert_eq!(decode_buffer(&d, Slot::GuI8), None);
    assert_eq!(
        prefill_buffer(&d, Slot::Gu, 256),
        Some((Element::Half, 256 * 21504))
    );
    assert_eq!(
        prefill_buffer(&d, Slot::GuI8, 256),
        Some((Element::Word, 256 * 21504 / 4))
    );
    assert_eq!(
        prefill_buffer(&d, Slot::FinScales, 256),
        Some((Element::Half, 256 * 5376 / 32))
    );
    assert_eq!(
        prefill_buffer(&d, Slot::CosSin(sl), 64),
        Some((Element::Single, 64 * 256))
    );
    assert_eq!(prefill_buffer(&d, Slot::Logits, 64), None);
    assert_eq!(store_len(&d, sl, 9999), 1024 * 4096);
    assert_eq!(store_len(&d, gl, 100), 100 * 2048);
}

#[test]
fn taps_are_found_by_name() {
    let m = model(6, 100, 64);
    let gl = LayerKind::Global;
    assert_eq!(prefill_tap("attn_norm", gl), Ok(Slot::Xn));
    assert_eq!(prefill_tap("q_rope", gl), Ok(Slot::Q(gl)));
    assert_eq!(prefill_tap("k_rope", gl), Ok(Slot::K(gl)));
    assert_eq!(prefill_tap("v_norm", gl), Ok(Slot::V(gl)));
    assert_eq!(prefill_tap("attn", gl), Ok(Slot::Attn(gl)));
    assert_eq!(prefill_tap("attn_out", gl), Ok(Slot::O));
    assert_eq!(prefill_tap("post_attn_norm", gl), Ok(Slot::On));
    assert_eq!(prefill_tap("h_attn", gl), Ok(Slot::X2));
    assert_eq!(prefill_tap("ffn_norm", gl), Ok(Slot::Fin));
    assert_eq!(prefill_tap("ffn_out", gl), Ok(Slot::F));
    assert_eq!(prefill_tap("post_ffn_norm", gl), Ok(Slot::Fn2));
    assert_eq!(prefill_tap("layer_out", gl), Ok(Slot::X));
    assert_eq!(
        m.read_prefill_tap("q_rope", true),
        Ok(Slot::Q(LayerKind::Sliding))
    );
    assert_eq!(
        m.read_prefill_tap("embed", true),
        Err("unknown tap `embed`".to_owned())
    );
}

#[test]
fn every_kernel_and_slot_is_listed_once() {
    let kernels = Kernel::all();
    assert_eq!(kernels.len(), 34);
    for (i, k) in kernels.iter().enumerate() {
        assert!(!kernels[..i].contains(k));
    }
    let slots = Slot::all();
    assert_eq!(slots.len(), 17 + 16);
    for (i, s) in slots.iter().enumerate() {
        assert!(!slots[..i].contains(s));
    }
}
