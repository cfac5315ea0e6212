//! The forward graph as data: the dispatches that a layer, a decode step and
//! a prefill chunk consist of, in order.
//!
//! Per layer:
//! ```text
//! rmsnorm(attn_norm) → gemv q/k[/v] → qk-norm + V-norm(ones) → rope q,k
//!   → kv_append k,v → split-K attention + reduce → gemv o
//!   → rmsnorm(post_attention) → add_scaled(×1.0)
//!   → rmsnorm(ffn) → gemv gate,up → geglu → gemv down
//!   → rmsnorm(post_ffw) → add_scaled(×layer_output_scale)
//! ```
//! Then `rmsnorm(output_norm)` → Q6_K LM head (softcap fused).

use vstd::prelude::*;
use vstd::string::*;

use crate::shape::{LayerKind, ModelDesc, FFN, HIDDEN};
use crate::weights::Tensor;

verus! {

/// Decode split counts, fixed when a graph is recorded.
pub const SPLITS_SLIDING: u32 = 16;

pub const SPLITS_GLOBAL: u32 = 32;

/// The bits of 1.0.
pub const ONE_BITS: u32 = 0x3f80_0000;

/// The compute kernels.
#[derive(Debug, Clone, Copy, PartialEq, Eq, Hash, Structural)]
pub enum Kernel {
    Rms5376,
    Rms512,
    Rms256,
    RopeSlidingQ,
    RopeSlidingK,
    RopeGlobalQ,
    RopeGlobalK,
    Gemv5376,
    Gemv8192,
    Gemv16384,
    Gemv21504,
    Geglu,
    AddScaled,
    AppendSliding,
    AppendGlobal,
    AttnSliding,
    AttnGlobal,
    Reduce256,
    Reduce512,
    Logits,
    GemmQSliding,
    GemmQGlobal,
    GemmKvSliding,
    GemmKvGlobal,
    GemmOSliding,
    GemmOGlobal,
    GemmUp,
    GemmDown,
    QuantQ8,
    GemmUpI8,
    GemmDownI8,
    PrefillSliding,
    PrefillGlobal,
    /// Makes the barrier between the producer of a buffer and a matrix
    /// product that reads it only through cooperative loads.
    Touch,
}

/// The name under which a kernel is loaded.
pub open spec fn kernel_name(k: Kernel) -> Seq<char> {
    match k {
        Kernel::Rms5376 => "rmsnorm_5376"@,
        Kernel::Rms512 => "rmsnorm_512"@,
        Kernel::Rms256 => "rmsnorm_256"@,
        Kernel::RopeSlidingQ => "rope_sliding_q"@,
        Kernel::RopeSlidingK => "rope_sliding_k"@,
        Kernel::RopeGlobalQ => "rope_global_q"@,
        Kernel::RopeGlobalK => "rope_global_k"@,
        Kernel::Gemv5376 => "gemv_q4_0_k5376"@,
        Kernel::Gemv8192 => "gemv_q4_0_k8192"@,
        Kernel::Gemv16384 => "gemv_q4_0_k16384"@,
        Kernel::Gemv21504 => "gemv_q4_0_k21504"@,
        Kernel::Geglu => "geglu"@,
        Kernel::AddScaled => "add_scaled"@,
        Kernel::AppendSliding => "kv_append_sliding"@,
        Kernel::AppendGlobal => "kv_append_global"@,
        Kernel::AttnSliding => "attn_decode_sliding"@,
        Kernel::AttnGlobal => "attn_decode_global"@,
        Kernel::Reduce256 => "attn_reduce_d256"@,
        Kernel::Reduce512 => "attn_reduce_d512"@,
        Kernel::Logits => "gemv_q6_k_logits"@,
        Kernel::GemmQSliding => "gemm_q4_0_k5376_n8192"@,
        Kernel::GemmQGlobal => "gemm_q4_0_k5376_n16384"@,
        Kernel::GemmKvSliding => "gemm_q4_0_k5376_n4096"@,
        Kernel::GemmKvGlobal => "gemm_q4_0_k5376_n2048"@,
        Kernel::GemmOSliding => "gemm_q4_0_k8192_n5376"@,
        Kernel::GemmOGlobal => "gemm_q4_0_k16384_n5376"@,
        Kernel::GemmUp => "gemm_q4_0_k5376_n21504"@,
        Kernel::GemmDown => "gemm_q4_0_k21504_n5376"@,
        Kernel::QuantQ8 => "kv_quant_q8"@,
        Kernel::GemmUpI8 => "gemm_q4_0_i8_t22_k5376_n21504"@,
        Kernel::GemmDownI8 => "gemm_q4_0_i8_t22_k21504_n5376"@,
        Kernel::PrefillSliding => "attn_prefill_sliding_ring"@,
        Kernel::PrefillGlobal => "attn_prefill_global"@,
        Kernel::Touch => "touch"@,
    }
}

impl Kernel {
    /// Every kernel.
    pub fn all() -> (list: Vec<Kernel>)
        ensures
            forall|k: Kernel| #[trigger] list@.contains(k),
    {
        let list = vec![
            Kernel::Rms5376,
            Kernel::Rms512,
            Kernel::Rms256,
            Kernel::RopeSlidingQ,
            Kernel::RopeSlidingK,
            Kernel::RopeGlobalQ,
            Kernel::RopeGlobalK,
            Kernel::Gemv5376,
            Kernel::Gemv8192,
            Kernel::Gemv16384,
            Kernel::Gemv21504,
            Kernel::Geglu,
            Kernel::AddScaled,
            Kernel::AppendSliding,
            Kernel::AppendGlobal,
            Kernel::AttnSliding,
            Kernel::AttnGlobal,
            Kernel::Reduce256,
            Kernel::Reduce512,
            Kernel::Logits,
            Kernel::GemmQSliding,
            Kernel::GemmQGlobal,
            Kernel::GemmKvSliding,
            Kernel::GemmKvGlobal,
            Kernel::GemmOSliding,
            Kernel::GemmOGlobal,
            Kernel::GemmUp,
            Kernel::GemmDown,
            Kernel::QuantQ8,
            Kernel::GemmUpI8,
            Kernel::GemmDownI8,
            Kernel::PrefillSliding,
            Kernel::PrefillGlobal,
            Kernel::Touch,
        ];
        assert forall|k: Kernel| #[trigger] list@.contains(k) by {
            let i: int = match k {
                Kernel::Rms5376 => 0,
                Kernel::Rms512 => 1,
                Kernel::Rms256 => 2,
                Kernel::RopeSlidingQ => 3,
                Kernel::RopeSlidingK => 4,
                Kernel::RopeGlobalQ => 5,
                Kernel::RopeGlobalK => 6,
                Kernel::Gemv5376 => 7,
                Kernel::Gemv8192 => 8,
                Kernel::Gemv16384 => 9,
                Kernel::Gemv21504 => 10,
                Kernel::Geglu => 11,
                Kernel::AddScaled => 12,
                Kernel::AppendSliding => 13,
                Kernel::AppendGlobal => 14,
                Kernel::AttnSliding => 15,
                Kernel::AttnGlobal => 16,
                Kernel::Reduce256 => 17,
                Kernel::Reduce512 => 18,
                Kernel::Logits => 19,
                Kernel::GemmQSliding => 20,
                Kernel::GemmQGlobal => 21,
                Kernel::GemmKvSliding => 22,
                Kernel::GemmKvGlobal => 23,
                Kernel::GemmOSliding => 24,
                Kernel::GemmOGlobal => 25,
                Kernel::GemmUp => 26,
                Kernel::GemmDown => 27,
                Kernel::QuantQ8 => 28,
                Kernel::GemmUpI8 => 29,
                Kernel::GemmDownI8 => 30,
                Kernel::PrefillSliding => 31,
                Kernel::PrefillGlobal => 32,
                Kernel::Touch => 33,
            };
            assert(list@[i] == k);
        }
        list
    }

    /// The name under which the kernel is loaded.
    pub fn name(self) -> (s: &'static str)
        ensures
            s@ == kernel_name(self),
    {
        match self {
            Kernel::Rms5376 => "rmsnorm_5376",
            Kernel::Rms512 => "rmsnorm_512",
            Kernel::Rms256 => "rmsnorm_256",
            Kernel::RopeSlidingQ => "rope_sliding_q",
            Kernel::RopeSlidingK => "rope_sliding_k",
            Kernel::RopeGlobalQ => "rope_global_q",
            Kernel::RopeGlobalK => "rope_global_k",
            Kernel::Gemv5376 => "gemv_q4_0_k5376",
            Kernel::Gemv8192 => "gemv_q4_0_k8192",
            Kernel::Gemv16384 => "gemv_q4_0_k16384",
            Kernel::Gemv21504 => "gemv_q4_0_k21504",
            Kernel::Geglu => "geglu",
            Kernel::AddScaled => "add_scaled",
            Kernel::AppendSliding => "kv_append_sliding",
            Kernel::AppendGlobal => "kv_append_global",
            Kernel::AttnSliding => "attn_decode_sliding",
            Kernel::AttnGlobal => "attn_decode_global",
            Kernel::Reduce256 => "attn_reduce_d256",
            Kernel::Reduce512 => "attn_reduce_d512",
            Kernel::Logits => "gemv_q6_k_logits",
            Kernel::GemmQSliding => "gemm_q4_0_k5376_n8192",
            Kernel::GemmQGlobal => "gemm_q4_0_k5376_n16384",
            Kernel::GemmKvSliding => "gemm_q4_0_k5376_n4096",
            Kernel::GemmKvGlobal => "gemm_q4_0_k5376_n2048",
            Kernel::GemmOSliding => "gemm_q4_0_k8192_n5376",
            Kernel::GemmOGlobal => "gemm_q4_0_k16384_n5376",
            Kernel::GemmUp => "gemm_q4_0_k5376_n21504",
            Kernel::GemmDown => "gemm_q4_0_k21504_n5376",
            Kernel::QuantQ8 => "kv_quant_q8",
            Kernel::GemmUpI8 => "gemm_q4_0_i8_t22_k5376_n21504",
            Kernel::GemmDownI8 => "gemm_q4_0_i8_t22_k21504_n5376",
            Kernel::PrefillSliding => "attn_prefill_sliding_ring",
            Kernel::PrefillGlobal => "attn_prefill_global",
            Kernel::Touch => "touch",
        }
    }
}

/// Activation buffers; where the geometry of the layer kinds differs, one for
/// each kind.
#[derive(Debug, Clone, Copy, PartialEq, Eq, Hash, Structural)]
pub enum Slot {
    X,
    Xn,
    QRaw(LayerKind),
    Q(LayerKind),
    Kp(LayerKind),
    K(LayerKind),
    Vp,
    V(LayerKind),
    Attn(LayerKind),
    /// Partial results of split attention (decode only).
    Part(LayerKind),
    O,
    On,
    X2,
    Fin,
    G,
    U,
    Gu,
    F,
    Fn2,
    /// Logits of one row (decode only).
    Logits,
    /// Quantized activations and their scales (prefill only).
    FinI8,
    FinScales,
    GuI8,
    GuScales,
    /// Rotation tables.
    CosSin(LayerKind),
}

impl Slot {
    /// Every slot.
    pub fn all() -> (list: Vec<Slot>)
        ensures
            forall|s: Slot| #[trigger] list@.contains(s),
    {
        let list = vec![
            Slot::X,
            Slot::Xn,
            Slot::Vp,
            Slot::O,
            Slot::On,
            Slot::X2,
            Slot::Fin,
            Slot::G,
            Slot::U,
            Slot::Gu,
            Slot::F,
            Slot::Fn2,
            Slot::Logits,
            Slot::FinI8,
            Slot::FinScales,
            Slot::GuI8,
            Slot::GuScales,
            Slot::QRaw(LayerKind::Sliding),
            Slot::Q(LayerKind::Sliding),
            Slot::Kp(LayerKind::Sliding),
            Slot::K(LayerKind::Sliding),
            Slot::V(LayerKind::Sliding),
            Slot::Attn(LayerKind::Sliding),
            Slot::Part(LayerKind::Sliding),
            Slot::CosSin(LayerKind::Sliding),
            Slot::QRaw(LayerKind::Global),
            Slot::Q(LayerKind::Global),
            Slot::Kp(LayerKind::Global),
            Slot::K(LayerKind::Global),
            Slot::V(LayerKind::Global),
            Slot::Attn(LayerKind::Global),
            Slot::Part(LayerKind::Global),
            Slot::CosSin(LayerKind::Global),
        ];
        assert forall|s: Slot| #[trigger] list@.contains(s) by {
            let i: int = match s {
                Slot::X => 0,
                Slot::Xn => 1,
                Slot::Vp => 2,
                Slot::O => 3,
                Slot::On => 4,
                Slot::X2 => 5,
                Slot::Fin => 6,
                Slot::G => 7,
                Slot::U => 8,
                Slot::Gu => 9,
                Slot::F => 10,
                Slot::Fn2 => 11,
                Slot::Logits => 12,
                Slot::FinI8 => 13,
                Slot::FinScales => 14,
                Slot::GuI8 => 15,
                Slot::GuScales => 16,
                Slot::QRaw(LayerKind::Sliding) => 17,
                Slot::Q(LayerKind::Sliding) => 18,
                Slot::Kp(LayerKind::Sliding) => 19,
                Slot::K(LayerKind::Sliding) => 20,
                Slot::V(LayerKind::Sliding) => 21,
                Slot::Attn(LayerKind::Sliding) => 22,
                Slot::Part(LayerKind::Sliding) => 23,
                Slot::CosSin(LayerKind::Sliding) => 24,
                Slot::QRaw(LayerKind::Global) => 25,
                Slot::Q(LayerKind::Global) => 26,
                Slot::Kp(LayerKind::Global) => 27,
                Slot::K(LayerKind::Global) => 28,
                Slot::V(LayerKind::Global) => 29,
                Slot::Attn(LayerKind::Global) => 30,
                Slot::Part(LayerKind::Global) => 31,
                Slot::CosSin(LayerKind::Global) => 32,
            };
            assert(list@[i] == s);
        }
        list
    }
}

/// What a dispatch binds.
#[derive(Debug, Clone, Copy, PartialEq, Eq, Hash, Structural)]
pub enum Buffer {
    /// Of the single-token set.
    Decode(Slot),
    /// Of the chunk-sized set.
    Prefill(Slot),
    /// A weight of a layer.
    Weight(usize, Tensor),
    OutputNorm,
    NormOnes,
    TokenEmbd,
    /// The key store of a layer.
    Keys(usize),
    /// The value store of a layer.
    Values(usize),
    Step,
    /// Logits of every row of a chunk.
    LogitsAll,
}

/// How much of a buffer is bound: all of it, or the elements from the first
/// position up to the second.
#[derive(Debug, Clone, Copy, PartialEq, Eq, Structural)]
pub enum Extent {
    Whole,
    Range(u64, u64),
}

/// A bound buffer.
#[derive(Debug, Clone, Copy, PartialEq, Eq, Structural)]
pub struct Binding {
    pub buffer: Buffer,
    pub extent: Extent,
}

/// Push constants, as words.
#[derive(Debug, Clone, Copy, PartialEq, Eq, Structural)]
pub enum Push {
    Nothing,
    Word(u32),
    Words(u32, u32),
}

/// Size of the grid: so many groups, or as many as the kernel needs for so
/// many elements.
#[derive(Debug, Clone, Copy, PartialEq, Eq, Structural)]
pub enum Groups {
    Exact(u32, u32, u32),
    Covering(u64),
}

/// One dispatch; binding `i` is the `i`-th of `bindings`.
#[derive(Debug)]
pub struct Dispatch {
    pub kernel: Kernel,
    pub bindings: Vec<Binding>,
    pub push: Push,
    pub groups: Groups,
}

pub struct Step {
    pub kernel: Kernel,
    pub bindings: Seq<Binding>,
    pub push: Push,
    pub groups: Groups,
}

impl View for Dispatch {
    type V = Step;

    open spec fn view(&self) -> Step {
        Step {
            kernel: self.kernel,
            bindings: self.bindings@,
            push: self.push,
            groups: self.groups,
        }
    }
}

/// The steps of a list of dispatches.
pub open spec fn steps(list: Seq<Dispatch>) -> Seq<Step> {
    list.map_values(|d: Dispatch| d@)
}

/// A whole buffer.
pub open spec fn bound(buffer: Buffer) -> Binding {
    Binding { buffer, extent: Extent::Whole }
}

/// A step over whole buffers.
pub open spec fn step(kernel: Kernel, buffers: Seq<Buffer>, push: Push, groups: Groups) -> Step {
    Step { kernel, bindings: buffers.map_values(|b: Buffer| bound(b)), push, groups }
}

/// A normalization of `rows` rows.
pub open spec fn norm(kernel: Kernel, x: Buffer, w: Buffer, y: Buffer, rows: int) -> Step {
    step(kernel, seq![x, w, y], Push::Nothing, Groups::Exact(rows as u32, 1, 1))
}

/// Appends a dispatch over whole buffers.
pub(crate) fn record(
    plan: &mut Vec<Dispatch>,
    kernel: Kernel,
    buffers: Vec<Buffer>,
    push: Push,
    groups: Groups,
)
    ensures
        steps(final(plan)@) == steps(old(plan)@).push(step(kernel, buffers@, push, groups)),
{
    let ghost had = plan@;
    let mut bindings: Vec<Binding> = Vec::new();
    let mut i: usize = 0;
    while i < buffers.len()
        invariant
            i <= buffers@.len(),
            bindings@ == buffers@.take(i as int).map_values(|b: Buffer| bound(b)),
        decreases buffers@.len() - i,
    {
        bindings.push(Binding { buffer: buffers[i], extent: Extent::Whole });
        assert(bindings@ =~= buffers@.take(i + 1).map_values(|b: Buffer| bound(b)));
        i = i + 1;
    }
    assert(buffers@.take(i as int) =~= buffers@);
    plan.push(Dispatch { kernel, bindings, push, groups });
    assert(steps(plan@) =~= steps(had).push(step(kernel, buffers@, push, groups)));
}

/// Appends a normalization of `rows` rows.
pub(crate) fn record_norm(
    plan: &mut Vec<Dispatch>,
    kernel: Kernel,
    x: Buffer,
    w: Buffer,
    y: Buffer,
    rows: u32,
)
    ensures
        steps(final(plan)@) == steps(old(plan)@).push(norm(kernel, x, w, y, rows as int)),
{
    record(plan, kernel, vec![x, w, y], Push::Nothing, Groups::Exact(rows, 1, 1));
}

/// The kernels that depend on the kind of a layer.
pub open spec fn head_norm(kind: LayerKind) -> Kernel {
    match kind {
        LayerKind::Sliding => Kernel::Rms256,
        LayerKind::Global => Kernel::Rms512,
    }
}

pub open spec fn rope_q(kind: LayerKind) -> Kernel {
    match kind {
        LayerKind::Sliding => Kernel::RopeSlidingQ,
        LayerKind::Global => Kernel::RopeGlobalQ,
    }
}

pub open spec fn rope_k(kind: LayerKind) -> Kernel {
    match kind {
        LayerKind::Sliding => Kernel::RopeSlidingK,
        LayerKind::Global => Kernel::RopeGlobalK,
    }
}

pub open spec fn append(kind: LayerKind) -> Kernel {
    match kind {
        LayerKind::Sliding => Kernel::AppendSliding,
        LayerKind::Global => Kernel::AppendGlobal,
    }
}

/// Splits of decode attention.
pub open spec fn splits(kind: LayerKind) -> u32 {
    match kind {
        LayerKind::Sliding => SPLITS_SLIDING,
        LayerKind::Global => SPLITS_GLOBAL,
    }
}

/// Where the values of a layer come from: their own projection in a sliding
/// layer, the projection of the keys in a global one.
pub open spec fn value_source(kind: LayerKind) -> Slot {
    match kind {
        LayerKind::Sliding => Slot::Vp,
        LayerKind::Global => Slot::Kp(LayerKind::Global),
    }
}

/// The projections of one token: queries, keys, and in a sliding layer values.
pub open spec fn decode_projections(d: ModelDesc, i: usize, kind: LayerKind) -> Seq<Step> {
    let xn = Buffer::Decode(Slot::Xn);
    let head = seq![
        norm(
            Kernel::Rms5376,
            Buffer::Decode(Slot::X),
            Buffer::Weight(i, Tensor::AttnNorm),
            xn,
            1,
        ),
        step(
            Kernel::Gemv5376,
            seq![Buffer::Weight(i, Tensor::AttnQ), xn, Buffer::Decode(Slot::QRaw(kind))],
            Push::Nothing,
            Groups::Exact(d.q_dim(kind) as u32, 1, 1),
        ),
        step(
            Kernel::Gemv5376,
            seq![Buffer::Weight(i, Tensor::AttnK), xn, Buffer::Decode(Slot::Kp(kind))],
            Push::Nothing,
            Groups::Exact(d.kv_dim(kind) as u32, 1, 1),
        ),
    ];
    match kind {
        LayerKind::Sliding => head.push(
            step(
                Kernel::Gemv5376,
                seq![Buffer::Weight(i, Tensor::AttnV), xn, Buffer::Decode(Slot::Vp)],
                Push::Nothing,
                Groups::Exact(d.kv_dim(kind) as u32, 1, 1),
            ),
        ),
        LayerKind::Global => head,
    }
}

/// A buffer of the chunk-sized set, or of the single-token set.
pub open spec fn placed(chunk: bool, slot: Slot) -> Buffer {
    if chunk {
        Buffer::Prefill(slot)
    } else {
        Buffer::Decode(slot)
    }
}

/// The head norms and rotations of `m` rows.
pub open spec fn heads_turned(
    d: ModelDesc,
    i: usize,
    kind: LayerKind,
    m: int,
    chunk: bool,
) -> Seq<Step> {
    let n_kv = d.geometry(kind).n_kv_heads as int;
    let live = d.live_pairs(kind);
    seq![
        norm(
            head_norm(kind),
            placed(chunk, Slot::QRaw(kind)),
            Buffer::Weight(i, Tensor::AttnQNorm),
            placed(chunk, Slot::Q(kind)),
            m * 32,
        ),
        norm(
            head_norm(kind),
            placed(chunk, Slot::Kp(kind)),
            Buffer::Weight(i, Tensor::AttnKNorm),
            placed(chunk, Slot::K(kind)),
            m * n_kv,
        ),
        norm(
            head_norm(kind),
            placed(chunk, value_source(kind)),
            Buffer::NormOnes,
            placed(chunk, Slot::V(kind)),
            m * n_kv,
        ),
        step(
            rope_q(kind),
            seq![placed(chunk, Slot::Q(kind)), placed(chunk, Slot::CosSin(kind))],
            Push::Nothing,
            Groups::Covering((m * 32 * live) as u64),
        ),
        step(
            rope_k(kind),
            seq![placed(chunk, Slot::K(kind)), placed(chunk, Slot::CosSin(kind))],
            Push::Nothing,
            Groups::Covering((m * n_kv * live) as u64),
        ),
    ]
}

/// The attention of one token: its keys and values appended, then attended
/// from the stores.
pub open spec fn decode_attention(d: ModelDesc, i: usize, kind: LayerKind) -> Seq<Step> {
    let n_splits = splits(kind);
    let (attend, reduce, project) = match kind {
        LayerKind::Sliding => (Kernel::AttnSliding, Kernel::Reduce256, Kernel::Gemv8192),
        LayerKind::Global => (Kernel::AttnGlobal, Kernel::Reduce512, Kernel::Gemv16384),
    };
    let part = Buffer::Decode(Slot::Part(kind));
    let attn = Buffer::Decode(Slot::Attn(kind));
    seq![
        step(
            append(kind),
            seq![Buffer::Decode(Slot::K(kind)), Buffer::Keys(i), Buffer::Step],
            Push::Nothing,
            Groups::Covering(d.kv_dim(kind) as u64),
        ),
        step(
            append(kind),
            seq![Buffer::Decode(Slot::V(kind)), Buffer::Values(i), Buffer::Step],
            Push::Nothing,
            Groups::Covering(d.kv_dim(kind) as u64),
        ),
        step(
            attend,
            seq![
                Buffer::Decode(Slot::Q(kind)),
                Buffer::Keys(i),
                Buffer::Values(i),
                part,
                Buffer::Step,
            ],
            Push::Words(n_splits, ONE_BITS),
            Groups::Exact(d.geometry(kind).n_kv_heads as u32, n_splits, 1),
        ),
        step(reduce, seq![part, attn], Push::Word(n_splits), Groups::Exact(32, 1, 1)),
        step(
            project,
            seq![Buffer::Weight(i, Tensor::AttnOutput), attn, Buffer::Decode(Slot::O)],
            Push::Nothing,
            Groups::Exact(HIDDEN as u32, 1, 1),
        ),
    ]
}

/// The end of a block: its result normalized and added to the residual, over
/// `m` rows.
pub open spec fn joined_residual(
    i: usize,
    m: int,
    chunk: bool,
    result: Slot,
    weight: Tensor,
    normed: Slot,
    residual: Slot,
    sum: Slot,
    scale: u32,
    len: int,
) -> Seq<Step> {
    seq![
        norm(Kernel::Rms5376, placed(chunk, result), Buffer::Weight(i, weight), placed(chunk, normed), m),
        step(
            Kernel::AddScaled,
            seq![placed(chunk, residual), placed(chunk, normed), placed(chunk, sum)],
            Push::Word(scale),
            Groups::Covering(len as u64),
        ),
    ]
}

/// The feed-forward block of one token.
pub open spec fn decode_ffn(i: usize) -> Seq<Step> {
    let fin = Buffer::Decode(Slot::Fin);
    seq![
        norm(
            Kernel::Rms5376,
            Buffer::Decode(Slot::X2),
            Buffer::Weight(i, Tensor::FfnNorm),
            fin,
            1,
        ),
        step(
            Kernel::Gemv5376,
            seq![Buffer::Weight(i, Tensor::FfnGate), fin, Buffer::Decode(Slot::G)],
            Push::Nothing,
            Groups::Exact(FFN as u32, 1, 1),
        ),
        step(
            Kernel::Gemv5376,
            seq![Buffer::Weight(i, Tensor::FfnUp), fin, Buffer::Decode(Slot::U)],
            Push::Nothing,
            Groups::Exact(FFN as u32, 1, 1),
        ),
        step(
            Kernel::Geglu,
            seq![
                Buffer::Decode(Slot::G),
                Buffer::Decode(Slot::U),
                Buffer::Decode(Slot::Gu),
            ],
            Push::Nothing,
            Groups::Covering(FFN as u64),
        ),
        step(
            Kernel::Gemv21504,
            seq![
                Buffer::Weight(i, Tensor::FfnDown),
                Buffer::Decode(Slot::Gu),
                Buffer::Decode(Slot::F),
            ],
            Push::Nothing,
            Groups::Exact(HIDDEN as u32, 1, 1),
        ),
    ]
}

/// The steps of layer `i` for one token; `scale` are the bits of its output
/// scale.
pub open spec fn decode_layer(d: ModelDesc, i: usize, scale: u32) -> Seq<Step> {
    let kind = d.layer_kinds@[i as int];
    decode_projections(d, i, kind) + heads_turned(d, i, kind, 1, false) + decode_attention(d, i, kind)
        + joined_residual(
        i,
        1,
        false,
        Slot::O,
        Tensor::PostAttentionNorm,
        Slot::On,
        Slot::X,
        Slot::X2,
        ONE_BITS,
        HIDDEN as int,
    ) + decode_ffn(i) + joined_residual(
        i,
        1,
        false,
        Slot::F,
        Tensor::PostFfwNorm,
        Slot::Fn2,
        Slot::X2,
        Slot::X,
        scale,
        HIDDEN as int,
    )
}

/// The final norm and the LM head for one token.
pub open spec fn decode_logits(d: ModelDesc) -> Seq<Step> {
    seq![
        norm(
            Kernel::Rms5376,
            Buffer::Decode(Slot::X),
            Buffer::OutputNorm,
            Buffer::Decode(Slot::Xn),
            1,
        ),
        step(
            Kernel::Logits,
            seq![Buffer::TokenEmbd, Buffer::Decode(Slot::Xn), Buffer::Decode(Slot::Logits)],
            Push::Nothing,
            Groups::Exact(d.vocab_size as u32, 1, 1),
        ),
    ]
}

pub(crate) fn place(chunk: bool, slot: Slot) -> (b: Buffer)
    ensures
        b == placed(chunk, slot),
{
    if chunk {
        Buffer::Prefill(slot)
    } else {
        Buffer::Decode(slot)
    }
}

/// Appends the projections of one token.
fn record_projections(d: &ModelDesc, i: usize, kind: LayerKind, plan: &mut Vec<Dispatch>)
    requires
        d.wf(),
    ensures
        steps(final(plan)@) == steps(old(plan)@) + decode_projections(*d, i, kind),
{
    let ghost had = steps(plan@);
    let xn = Buffer::Decode(Slot::Xn);
    let q: u32 = d.query_width(kind);
    let kv: u32 = d.kv_width(kind);
    record_norm(
        plan,
        Kernel::Rms5376,
        Buffer::Decode(Slot::X),
        Buffer::Weight(i, Tensor::AttnNorm),
        xn,
        1,
    );
    record(
        plan,
        Kernel::Gemv5376,
        vec![Buffer::Weight(i, Tensor::AttnQ), xn, Buffer::Decode(Slot::QRaw(kind))],
        Push::Nothing,
        Groups::Exact(q, 1, 1),
    );
    record(
        plan,
        Kernel::Gemv5376,
        vec![Buffer::Weight(i, Tensor::AttnK), xn, Buffer::Decode(Slot::Kp(kind))],
        Push::Nothing,
        Groups::Exact(kv, 1, 1),
    );
    // V projection: own tensor on sliding layers, the K projection output on
    // global ones (they diverge through the norms below).
    if let LayerKind::Sliding = kind {
        record(
            plan,
            Kernel::Gemv5376,
            vec![Buffer::Weight(i, Tensor::AttnV), xn, Buffer::Decode(Slot::Vp)],
            Push::Nothing,
            Groups::Exact(kv, 1, 1),
        );
    }
    assert(steps(plan@) =~= had + decode_projections(*d, i, kind));
}

/// The row counts of `m` rows fit the words that they are dispatched in.
pub open spec fn rows_fit(d: ModelDesc, m: int) -> bool {
    &&& 0 <= m
    &&& m * 32 <= u32::MAX
    &&& m * d.sliding.n_kv_heads <= u32::MAX
    &&& m * d.global.n_kv_heads <= u32::MAX
    &&& m * 32 * d.live_pairs(LayerKind::Sliding) <= u64::MAX
    &&& m * 32 * d.live_pairs(LayerKind::Global) <= u64::MAX
    &&& m * d.sliding.n_kv_heads * d.live_pairs(LayerKind::Sliding) <= u64::MAX
    &&& m * d.global.n_kv_heads * d.live_pairs(LayerKind::Global) <= u64::MAX
}

/// One row always fits.
pub proof fn lemma_one_row_fits(d: ModelDesc)
    requires
        d.wf(),
    ensures
        rows_fit(d, 1),
{
    let (a, b) = (d.sliding.n_kv_heads as int, d.sliding.head_dim as int);
    let (x, y) = (d.global.n_kv_heads as int, d.global.head_dim as int);
    assert(a * (b / 2) <= a * b) by (nonlinear_arith)
        requires
            a >= 0,
            b >= 0,
    ;
    assert(x * (y / 8) <= x * y) by (nonlinear_arith)
        requires
            x >= 0,
            y >= 0,
    ;
}

/// Appends the head norms and rotations of `m` rows.
pub(crate) fn record_heads(
    d: &ModelDesc,
    i: usize,
    kind: LayerKind,
    m: usize,
    chunk: bool,
    plan: &mut Vec<Dispatch>,
)
    requires
        d.wf(),
        rows_fit(*d, m as int),
    ensures
        steps(final(plan)@) == steps(old(plan)@) + heads_turned(*d, i, kind, m as int, chunk),
{
    let ghost had = steps(plan@);
    let (head, turn_q, turn_k, source): (Kernel, Kernel, Kernel, Slot) = match kind {
        LayerKind::Sliding => (
            Kernel::Rms256,
            Kernel::RopeSlidingQ,
            Kernel::RopeSlidingK,
            Slot::Vp,
        ),
        LayerKind::Global => (
            Kernel::Rms512,
            Kernel::RopeGlobalQ,
            Kernel::RopeGlobalK,
            Slot::Kp(LayerKind::Global),
        ),
    };
    let n_kv: u64 = d.n_kv_heads(kind) as u64;
    let live: u64 = d.rope_pairs(kind) as u64;
    let q_rows: u64 = m as u64 * 32;
    let kv_rows: u64 = m as u64 * n_kv;
    record_norm(
        plan,
        head,
        place(chunk, Slot::QRaw(kind)),
        Buffer::Weight(i, Tensor::AttnQNorm),
        place(chunk, Slot::Q(kind)),
        q_rows as u32,
    );
    record_norm(
        plan,
        head,
        place(chunk, Slot::Kp(kind)),
        Buffer::Weight(i, Tensor::AttnKNorm),
        place(chunk, Slot::K(kind)),
        kv_rows as u32,
    );
    // V-norm: weightless.
    record_norm(
        plan,
        head,
        place(chunk, source),
        Buffer::NormOnes,
        place(chunk, Slot::V(kind)),
        kv_rows as u32,
    );
    record(
        plan,
        turn_q,
        vec![place(chunk, Slot::Q(kind)), place(chunk, Slot::CosSin(kind))],
        Push::Nothing,
        Groups::Covering(q_rows * live),
    );
    record(
        plan,
        turn_k,
        vec![place(chunk, Slot::K(kind)), place(chunk, Slot::CosSin(kind))],
        Push::Nothing,
        Groups::Covering(kv_rows * live),
    );
    assert(steps(plan@) =~= had + heads_turned(*d, i, kind, m as int, chunk));
}

/// Appends the attention of one token.
fn record_attention(d: &ModelDesc, i: usize, kind: LayerKind, plan: &mut Vec<Dispatch>)
    requires
        d.wf(),
    ensures
        steps(final(plan)@) == steps(old(plan)@) + decode_attention(*d, i, kind),
{
    let ghost had = steps(plan@);
    let (write, attend, reduce, project, n_splits): (Kernel, Kernel, Kernel, Kernel, u32) =
        match kind {
        LayerKind::Sliding => (
            Kernel::AppendSliding,
            Kernel::AttnSliding,
            Kernel::Reduce256,
            Kernel::Gemv8192,
            SPLITS_SLIDING,
        ),
        LayerKind::Global => (
            Kernel::AppendGlobal,
            Kernel::AttnGlobal,
            Kernel::Reduce512,
            Kernel::Gemv16384,
            SPLITS_GLOBAL,
        ),
    };
    let kv: u64 = d.kv_width(kind) as u64;
    let part = Buffer::Decode(Slot::Part(kind));
    let attn = Buffer::Decode(Slot::Attn(kind));
    record(
        plan,
        write,
        vec![Buffer::Decode(Slot::K(kind)), Buffer::Keys(i), Buffer::Step],
        Push::Nothing,
        Groups::Covering(kv),
    );
    record(
        plan,
        write,
        vec![Buffer::Decode(Slot::V(kind)), Buffer::Values(i), Buffer::Step],
        Push::Nothing,
        Groups::Covering(kv),
    );
    // The scale is 1.0: the norm of queries and keys replaces 1/√d.
    record(
        plan,
        attend,
        vec![
            Buffer::Decode(Slot::Q(kind)),
            Buffer::Keys(i),
            Buffer::Values(i),
            part,
            Buffer::Step,
        ],
        Push::Words(n_splits, ONE_BITS),
        Groups::Exact(d.n_kv_heads(kind) as u32, n_splits, 1),
    );
    record(plan, reduce, vec![part, attn], Push::Word(n_splits), Groups::Exact(32, 1, 1));
    record(
        plan,
        project,
        vec![Buffer::Weight(i, Tensor::AttnOutput), attn, Buffer::Decode(Slot::O)],
        Push::Nothing,
        Groups::Exact(HIDDEN as u32, 1, 1),
    );
    assert(steps(plan@) =~= had + decode_attention(*d, i, kind));
}

/// Appends the end of the attention block.
pub(crate) fn record_attention_end(i: usize, m: u32, chunk: bool, len: u64, plan: &mut Vec<Dispatch>)
    ensures
        steps(final(plan)@) == steps(old(plan)@) + joined_residual(
            i,
            m as int,
            chunk,
            Slot::O,
            Tensor::PostAttentionNorm,
            Slot::On,
            Slot::X,
            Slot::X2,
            ONE_BITS,
            len as int,
        ),
{
    let ghost had = steps(plan@);
    record_norm(
        plan,
        Kernel::Rms5376,
        place(chunk, Slot::O),
        Buffer::Weight(i, Tensor::PostAttentionNorm),
        place(chunk, Slot::On),
        m,
    );
    record(
        plan,
        Kernel::AddScaled,
        vec![place(chunk, Slot::X), place(chunk, Slot::On), place(chunk, Slot::X2)],
        Push::Word(ONE_BITS),
        Groups::Covering(len),
    );
    assert(steps(plan@) =~= had + joined_residual(
        i,
        m as int,
        chunk,
        Slot::O,
        Tensor::PostAttentionNorm,
        Slot::On,
        Slot::X,
        Slot::X2,
        ONE_BITS,
        len as int,
    ));
}

/// Appends the end of the feed-forward block: the residual, scaled, back into
/// `x` for the next layer.
pub(crate) fn record_ffn_end(i: usize, m: u32, chunk: bool, scale: u32, len: u64, plan: &mut Vec<Dispatch>)
    ensures
        steps(final(plan)@) == steps(old(plan)@) + joined_residual(
            i,
            m as int,
            chunk,
            Slot::F,
            Tensor::PostFfwNorm,
            Slot::Fn2,
            Slot::X2,
            Slot::X,
            scale,
            len as int,
        ),
{
    let ghost had = steps(plan@);
    record_norm(
        plan,
        Kernel::Rms5376,
        place(chunk, Slot::F),
        Buffer::Weight(i, Tensor::PostFfwNorm),
        place(chunk, Slot::Fn2),
        m,
    );
    record(
        plan,
        Kernel::AddScaled,
        vec![place(chunk, Slot::X2), place(chunk, Slot::Fn2), place(chunk, Slot::X)],
        Push::Word(scale),
        Groups::Covering(len),
    );
    assert(steps(plan@) =~= had + joined_residual(
        i,
        m as int,
        chunk,
        Slot::F,
        Tensor::PostFfwNorm,
        Slot::Fn2,
        Slot::X2,
        Slot::X,
        scale,
        len as int,
    ));
}

/// Appends the feed-forward block of one token.
fn record_ffn(i: usize, plan: &mut Vec<Dispatch>)
    ensures
        steps(final(plan)@) == steps(old(plan)@) + decode_ffn(i),
{
    let ghost had = steps(plan@);
    let fin = Buffer::Decode(Slot::Fin);
    record_norm(
        plan,
        Kernel::Rms5376,
        Buffer::Decode(Slot::X2),
        Buffer::Weight(i, Tensor::FfnNorm),
        fin,
        1,
    );
    record(
        plan,
        Kernel::Gemv5376,
        vec![Buffer::Weight(i, Tensor::FfnGate), fin, Buffer::Decode(Slot::G)],
        Push::Nothing,
        Groups::Exact(FFN as u32, 1, 1),
    );
    record(
        plan,
        Kernel::Gemv5376,
        vec![Buffer::Weight(i, Tensor::FfnUp), fin, Buffer::Decode(Slot::U)],
        Push::Nothing,
        Groups::Exact(FFN as u32, 1, 1),
    );
    record(
        plan,
        Kernel::Geglu,
        vec![Buffer::Decode(Slot::G), Buffer::Decode(Slot::U), Buffer::Decode(Slot::Gu)],
        Push::Nothing,
        Groups::Covering(FFN as u64),
    );
    record(
        plan,
        Kernel::Gemv21504,
        vec![
            Buffer::Weight(i, Tensor::FfnDown),
            Buffer::Decode(Slot::Gu),
            Buffer::Decode(Slot::F),
        ],
        Push::Nothing,
        Groups::Exact(HIDDEN as u32, 1, 1),
    );
    assert(steps(plan@) =~= had + decode_ffn(i));
}

/// Appends layer `i` for one token; `scale` are the bits of its output scale.
pub fn record_layer(d: &ModelDesc, i: usize, scale: u32, plan: &mut Vec<Dispatch>)
    requires
        d.wf(),
        i < d.n_layers,
    ensures
        steps(final(plan)@) == steps(old(plan)@) + decode_layer(*d, i, scale),
{
    let ghost had = steps(plan@);
    let kind = d.layer_kinds[i];
    proof {
        lemma_one_row_fits(*d);
    }
    record_projections(d, i, kind, plan);
    record_heads(d, i, kind, 1, false, plan);
    record_attention(d, i, kind, plan);
    record_attention_end(i, 1, false, HIDDEN as u64, plan);
    record_ffn(i, plan);
    record_ffn_end(i, 1, false, scale, HIDDEN as u64, plan);
    assert(steps(plan@) =~= had + decode_layer(*d, i, scale));
}

/// Appends the final norm and the LM head for one token.
pub fn record_logits(d: &ModelDesc, plan: &mut Vec<Dispatch>)
    requires
        d.wf(),
    ensures
        steps(final(plan)@) == steps(old(plan)@) + decode_logits(*d),
{
    let ghost had = steps(plan@);
    record_norm(
        plan,
        Kernel::Rms5376,
        Buffer::Decode(Slot::X),
        Buffer::OutputNorm,
        Buffer::Decode(Slot::Xn),
        1,
    );
    record(
        plan,
        Kernel::Logits,
        vec![Buffer::TokenEmbd, Buffer::Decode(Slot::Xn), Buffer::Decode(Slot::Logits)],
        Push::Nothing,
        Groups::Exact(d.vocab_size as u32, 1, 1),
    );
    assert(steps(plan@) =~= had + decode_logits(*d));
}

/// The layers `from..to` for one token, one after the other; `scales` are the
/// bits of the output scales of all layers.
pub open spec fn decode_layers(d: ModelDesc, scales: Seq<u32>, from: int, to: int) -> Seq<Step>
    decreases to - from,
{
    if to <= from {
        Seq::empty()
    } else {
        decode_layers(d, scales, from, to - 1) + decode_layer(
            d,
            (to - 1) as usize,
            scales[to - 1],
        )
    }
}

/// The graph of the layers `from..to`, with or without the final norm and the
/// LM head. A full decode step is all layers with logits.
pub fn decode_graph(
    d: &ModelDesc,
    scales: &Vec<u32>,
    from: usize,
    to: usize,
    with_logits: bool,
) -> (plan: Vec<Dispatch>)
    requires
        d.wf(),
        scales@.len() == d.n_layers,
        from <= to <= d.n_layers,
    ensures
        steps(plan@) == decode_layers(*d, scales@, from as int, to as int) + (if with_logits {
            decode_logits(*d)
        } else {
            Seq::empty()
        }),
{
    let mut plan: Vec<Dispatch> = Vec::new();
    assert(steps(plan@) =~= decode_layers(*d, scales@, from as int, from as int));
    let mut i: usize = from;
    while i < to
        invariant
            d.wf(),
            scales@.len() == d.n_layers,
            from <= i <= to <= d.n_layers,
            steps(plan@) == decode_layers(*d, scales@, from as int, i as int),
        decreases to - i,
    {
        record_layer(d, i, scales[i], &mut plan);
        i = i + 1;
    }
    if with_logits {
        record_logits(d, &mut plan);
    } else {
        assert(steps(plan@) =~= steps(plan@) + Seq::<Step>::empty());
    }
    plan
}

} // verus!
