//! Chunked prefill: the dispatches of one padded chunk, the segments in which
//! they are submitted, and the chunks a prompt is cut into.

use vstd::prelude::*;

use crate::graph::{
    append, bound, heads_turned, joined_residual, norm, record, record_attention_end,
    record_ffn_end, record_heads, record_norm, rows_fit, step, steps, Binding, Buffer, Dispatch,
    Extent, Groups, Kernel, Push, Slot, Step, ONE_BITS,
};
use crate::shape::{pad_rows, padded, LayerKind, ModelDesc, FFN, HIDDEN};
use crate::weights::Tensor;

verus! {

/// Layers per prefill submission (one global layer each): a single
/// submission that runs too long is killed by the device's watchdog.
pub const PREFILL_SEGMENT_LAYERS: usize = 6;

/// Rows per submission of the LM head over all positions.
pub const LOGITS_BATCH: usize = 32;

/// Which logits a prefill graph computes.
#[derive(Debug, Clone, Copy, PartialEq, Eq, Hash, Structural)]
pub enum LogitsMode {
    /// None: interior chunks of a prompt.
    Nothing,
    /// Final norm + LM head over the chunk's last real row (generation).
    Last,
}

/// A chunk: `m_pad` rows, of which the first `n_real` hold tokens, in buffers
/// made for `max_chunk`.
#[derive(Debug, Clone, Copy, PartialEq, Eq, Structural)]
pub struct ChunkShape {
    pub m_pad: usize,
    pub n_real: usize,
    pub max_chunk: usize,
}

impl ChunkShape {
    /// Whole blocks of rows, some of them real, and counts that fit the words
    /// that they are dispatched in.
    pub open spec fn wf(self, d: ModelDesc) -> bool {
        &&& self.m_pad % 64 == 0
        &&& 0 < self.n_real <= self.m_pad <= self.max_chunk
        &&& rows_fit(d, self.m_pad as int)
        &&& self.n_real * d.kv_dim(LayerKind::Sliding) <= u64::MAX
        &&& self.n_real * d.kv_dim(LayerKind::Global) <= u64::MAX
        &&& self.max_chunk * FFN <= u64::MAX
    }

    /// Blocks of 64 rows.
    pub open spec fn blocks(self) -> u32 {
        (self.m_pad / 64) as u32
    }
}

pub open spec fn gemm_q(kind: LayerKind) -> Kernel {
    match kind {
        LayerKind::Sliding => Kernel::GemmQSliding,
        LayerKind::Global => Kernel::GemmQGlobal,
    }
}

pub open spec fn gemm_kv(kind: LayerKind) -> Kernel {
    match kind {
        LayerKind::Sliding => Kernel::GemmKvSliding,
        LayerKind::Global => Kernel::GemmKvGlobal,
    }
}

pub open spec fn gemm_o(kind: LayerKind) -> Kernel {
    match kind {
        LayerKind::Sliding => Kernel::GemmOSliding,
        LayerKind::Global => Kernel::GemmOGlobal,
    }
}

/// The barrier before a matrix product reads a buffer.
pub open spec fn touch(b: Buffer) -> Step {
    step(Kernel::Touch, seq![b], Push::Nothing, Groups::Exact(1, 1, 1))
}

/// A matrix product of weights and an activation.
pub open spec fn gemm(kernel: Kernel, w: Buffer, x: Buffer, y: Buffer, cols: int, rows: u32) -> Step {
    step(kernel, seq![w, x, y], Push::Nothing, Groups::Exact(cols as u32, rows, 1))
}

/// The projections of a chunk.
pub open spec fn chunk_projections(d: ModelDesc, i: usize, kind: LayerKind, c: ChunkShape) -> Seq<
    Step,
> {
    let xn = Buffer::Prefill(Slot::Xn);
    let kv_cols = d.kv_dim(kind) / 64;
    let head = seq![
        norm(
            Kernel::Rms5376,
            Buffer::Prefill(Slot::X),
            Buffer::Weight(i, Tensor::AttnNorm),
            xn,
            c.m_pad as int,
        ),
        touch(xn),
        gemm(
            gemm_q(kind),
            Buffer::Weight(i, Tensor::AttnQ),
            xn,
            Buffer::Prefill(Slot::QRaw(kind)),
            d.q_dim(kind) / 64,
            c.blocks(),
        ),
        gemm(
            gemm_kv(kind),
            Buffer::Weight(i, Tensor::AttnK),
            xn,
            Buffer::Prefill(Slot::Kp(kind)),
            kv_cols,
            c.blocks(),
        ),
    ];
    match kind {
        LayerKind::Sliding => head.push(
            gemm(
                gemm_kv(kind),
                Buffer::Weight(i, Tensor::AttnV),
                xn,
                Buffer::Prefill(Slot::Vp),
                kv_cols,
                c.blocks(),
            ),
        ),
        LayerKind::Global => head,
    }
}

/// The real rows of `src` appended to a store.
pub open spec fn chunk_append(
    d: ModelDesc,
    kind: LayerKind,
    c: ChunkShape,
    src: Slot,
    store: Buffer,
) -> Step {
    let len = (c.n_real * d.kv_dim(kind)) as u64;
    Step {
        kernel: append(kind),
        bindings: seq![
            Binding { buffer: Buffer::Prefill(src), extent: Extent::Range(0, len) },
            bound(store),
            bound(Buffer::Step),
        ],
        push: Push::Nothing,
        groups: Groups::Covering(len),
    }
}

/// The attention of a chunk. A sliding layer attends from ring and chunk
/// first and then appends, because appending first would overwrite early
/// queries' windows; a global layer appends first, and the causal mask makes
/// the chunk's own keys visible at the right queries.
pub open spec fn chunk_attention(d: ModelDesc, i: usize, kind: LayerKind, c: ChunkShape) -> Seq<
    Step,
> {
    let attn = Buffer::Prefill(Slot::Attn(kind));
    let grid = Groups::Exact(d.geometry(kind).n_kv_heads as u32, c.m_pad as u32, 1);
    let keys = chunk_append(d, kind, c, Slot::K(kind), Buffer::Keys(i));
    let values = chunk_append(d, kind, c, Slot::V(kind), Buffer::Values(i));
    match kind {
        LayerKind::Sliding => seq![
            step(
                Kernel::PrefillSliding,
                seq![
                    Buffer::Prefill(Slot::Q(kind)),
                    Buffer::Keys(i),
                    Buffer::Values(i),
                    Buffer::Prefill(Slot::K(kind)),
                    Buffer::Prefill(Slot::V(kind)),
                    attn,
                    Buffer::Step,
                ],
                Push::Word(ONE_BITS),
                grid,
            ),
            keys,
            values,
        ],
        LayerKind::Global => seq![
            keys,
            values,
            step(
                Kernel::PrefillGlobal,
                seq![
                    Buffer::Prefill(Slot::Q(kind)),
                    Buffer::Keys(i),
                    Buffer::Values(i),
                    attn,
                    Buffer::Step,
                ],
                Push::Word(ONE_BITS),
                grid,
            ),
        ],
    }
}

/// The output projection of a chunk's attention.
pub open spec fn chunk_output(i: usize, kind: LayerKind, c: ChunkShape) -> Seq<Step> {
    let attn = Buffer::Prefill(Slot::Attn(kind));
    seq![
        touch(attn),
        gemm(
            gemm_o(kind),
            Buffer::Weight(i, Tensor::AttnOutput),
            attn,
            Buffer::Prefill(Slot::O),
            HIDDEN as int / 64,
            c.blocks(),
        ),
    ]
}

/// Activations quantized for the 8-bit products.
pub open spec fn quantized(x: Slot, scales: Slot, quants: Slot, len: int) -> Step {
    step(
        Kernel::QuantQ8,
        seq![Buffer::Prefill(x), Buffer::Prefill(scales), Buffer::Prefill(quants)],
        Push::Nothing,
        Groups::Covering((len / 32) as u64),
    )
}

/// An 8-bit matrix product, in blocks of 32 rows.
pub open spec fn gemm_i8(
    kernel: Kernel,
    w: Buffer,
    quants: Slot,
    scales: Slot,
    y: Slot,
    cols: int,
    c: ChunkShape,
) -> Step {
    step(
        kernel,
        seq![w, Buffer::Prefill(quants), Buffer::Prefill(scales), Buffer::Prefill(y)],
        Push::Nothing,
        Groups::Exact(cols as u32, (c.m_pad / 32) as u32, 1),
    )
}

/// The widening products of a chunk: in 16-bit floats, or with `int8` from
/// activations quantized once for both.
pub open spec fn chunk_gate_up(i: usize, c: ChunkShape, int8: bool) -> Seq<Step> {
    let gate = Buffer::Weight(i, Tensor::FfnGate);
    let up = Buffer::Weight(i, Tensor::FfnUp);
    let fin = Buffer::Prefill(Slot::Fin);
    let head = seq![
        norm(
            Kernel::Rms5376,
            Buffer::Prefill(Slot::X2),
            Buffer::Weight(i, Tensor::FfnNorm),
            fin,
            c.m_pad as int,
        ),
        touch(fin),
    ];
    head + (if int8 {
        seq![
            quantized(Slot::Fin, Slot::FinScales, Slot::FinI8, c.m_pad * HIDDEN),
            touch(Buffer::Prefill(Slot::FinI8)),
            gemm_i8(
                Kernel::GemmUpI8,
                gate,
                Slot::FinI8,
                Slot::FinScales,
                Slot::G,
                FFN as int / 32,
                c,
            ),
            gemm_i8(
                Kernel::GemmUpI8,
                up,
                Slot::FinI8,
                Slot::FinScales,
                Slot::U,
                FFN as int / 32,
                c,
            ),
        ]
    } else {
        seq![
            gemm(
                Kernel::GemmUp,
                gate,
                fin,
                Buffer::Prefill(Slot::G),
                FFN as int / 64,
                c.blocks(),
            ),
            gemm(
                Kernel::GemmUp,
                up,
                fin,
                Buffer::Prefill(Slot::U),
                FFN as int / 64,
                c.blocks(),
            ),
        ]
    })
}

/// The gated product and the down product of a chunk.
pub open spec fn chunk_down(i: usize, c: ChunkShape, int8: bool) -> Seq<Step> {
    let down = Buffer::Weight(i, Tensor::FfnDown);
    let gu = Buffer::Prefill(Slot::Gu);
    let head = seq![
        step(
            Kernel::Geglu,
            seq![Buffer::Prefill(Slot::G), Buffer::Prefill(Slot::U), gu],
            Push::Nothing,
            Groups::Covering((c.max_chunk * FFN) as u64),
        ),
    ];
    head + (if int8 {
        seq![
            quantized(Slot::Gu, Slot::GuScales, Slot::GuI8, c.m_pad * FFN),
            touch(Buffer::Prefill(Slot::GuI8)),
            gemm_i8(
                Kernel::GemmDownI8,
                down,
                Slot::GuI8,
                Slot::GuScales,
                Slot::F,
                HIDDEN as int / 32,
                c,
            ),
        ]
    } else {
        seq![
            touch(gu),
            gemm(
                Kernel::GemmDown,
                down,
                gu,
                Buffer::Prefill(Slot::F),
                HIDDEN as int / 64,
                c.blocks(),
            ),
        ]
    })
}

/// The steps of layer `i` for a chunk; `scale` are the bits of its output
/// scale.
pub open spec fn chunk_layer(d: ModelDesc, i: usize, c: ChunkShape, int8: bool, scale: u32) -> Seq<
    Step,
> {
    let kind = d.layer_kinds@[i as int];
    let len = c.max_chunk * HIDDEN;
    chunk_projections(d, i, kind, c) + heads_turned(d, i, kind, c.m_pad as int, true)
        + chunk_attention(d, i, kind, c) + chunk_output(i, kind, c) + joined_residual(
        i,
        c.m_pad as int,
        true,
        Slot::O,
        Tensor::PostAttentionNorm,
        Slot::On,
        Slot::X,
        Slot::X2,
        ONE_BITS,
        len,
    ) + chunk_gate_up(i, c, int8) + chunk_down(i, c, int8) + joined_residual(
        i,
        c.m_pad as int,
        true,
        Slot::F,
        Tensor::PostFfwNorm,
        Slot::Fn2,
        Slot::X2,
        Slot::X,
        scale,
        len,
    )
}

/// The final norm and the LM head over the last real row of a chunk, into the
/// single-token buffers.
pub open spec fn chunk_logits(d: ModelDesc, n_real: int) -> Seq<Step> {
    seq![
        Step {
            kernel: Kernel::Rms5376,
            bindings: seq![
                Binding {
                    buffer: Buffer::Prefill(Slot::X),
                    extent: Extent::Range(
                        ((n_real - 1) * HIDDEN) as u64,
                        (n_real * HIDDEN) as u64,
                    ),
                },
                bound(Buffer::OutputNorm),
                bound(Buffer::Decode(Slot::Xn)),
            ],
            push: Push::Nothing,
            groups: Groups::Exact(1, 1, 1),
        },
        step(
            Kernel::Logits,
            seq![Buffer::TokenEmbd, Buffer::Decode(Slot::Xn), Buffer::Decode(Slot::Logits)],
            Push::Nothing,
            Groups::Exact(d.vocab_size as u32, 1, 1),
        ),
    ]
}

/// Appends a dispatch over the given bindings.
fn record_bound(
    plan: &mut Vec<Dispatch>,
    kernel: Kernel,
    bindings: Vec<Binding>,
    push: Push,
    groups: Groups,
)
    ensures
        steps(final(plan)@) == steps(old(plan)@).push(
            (Step { kernel, bindings: bindings@, push, groups }),
        ),
{
    let ghost had = plan@;
    plan.push(Dispatch { kernel, bindings, push, groups });
    assert(steps(plan@) =~= steps(had).push(
        (Step { kernel, bindings: bindings@, push, groups }),
    ));
}

fn record_touch(plan: &mut Vec<Dispatch>, b: Buffer)
    ensures
        steps(final(plan)@) == steps(old(plan)@).push(touch(b)),
{
    let buffers: Vec<Buffer> = vec![b];
    assert(buffers@ =~= seq![b]);
    record(plan, Kernel::Touch, buffers, Push::Nothing, Groups::Exact(1, 1, 1));
}

fn record_gemm(
    plan: &mut Vec<Dispatch>,
    kernel: Kernel,
    w: Buffer,
    x: Buffer,
    y: Buffer,
    cols: u32,
    rows: u32,
)
    ensures
        steps(final(plan)@) == steps(old(plan)@).push(gemm(kernel, w, x, y, cols as int, rows)),
{
    record(plan, kernel, vec![w, x, y], Push::Nothing, Groups::Exact(cols, rows, 1));
}

/// Appends the projections of a chunk.
fn record_chunk_projections(
    d: &ModelDesc,
    i: usize,
    kind: LayerKind,
    c: ChunkShape,
    plan: &mut Vec<Dispatch>,
)
    requires
        d.wf(),
        c.wf(*d),
    ensures
        steps(final(plan)@) == steps(old(plan)@) + chunk_projections(*d, i, kind, c),
{
    let ghost had = steps(plan@);
    let xn = Buffer::Prefill(Slot::Xn);
    let (q, kv): (Kernel, Kernel) = match kind {
        LayerKind::Sliding => (Kernel::GemmQSliding, Kernel::GemmKvSliding),
        LayerKind::Global => (Kernel::GemmQGlobal, Kernel::GemmKvGlobal),
    };
    let rows: u32 = (c.m_pad / 64) as u32;
    let q_cols: u32 = d.query_width(kind) / 64;
    let kv_cols: u32 = d.kv_width(kind) / 64;
    record_norm(
        plan,
        Kernel::Rms5376,
        Buffer::Prefill(Slot::X),
        Buffer::Weight(i, Tensor::AttnNorm),
        xn,
        c.m_pad as u32,
    );
    record_touch(plan, xn);
    record_gemm(
        plan,
        q,
        Buffer::Weight(i, Tensor::AttnQ),
        xn,
        Buffer::Prefill(Slot::QRaw(kind)),
        q_cols,
        rows,
    );
    record_gemm(
        plan,
        kv,
        Buffer::Weight(i, Tensor::AttnK),
        xn,
        Buffer::Prefill(Slot::Kp(kind)),
        kv_cols,
        rows,
    );
    if let LayerKind::Sliding = kind {
        record_gemm(
            plan,
            kv,
            Buffer::Weight(i, Tensor::AttnV),
            xn,
            Buffer::Prefill(Slot::Vp),
            kv_cols,
            rows,
        );
    }
    assert(steps(plan@) =~= had + chunk_projections(*d, i, kind, c));
}

/// Appends the real rows of `src` to a store.
fn record_append(
    d: &ModelDesc,
    kind: LayerKind,
    c: ChunkShape,
    src: Slot,
    store: Buffer,
    plan: &mut Vec<Dispatch>,
)
    requires
        d.wf(),
        c.wf(*d),
    ensures
        steps(final(plan)@) == steps(old(plan)@).push(chunk_append(*d, kind, c, src, store)),
{
    let kernel: Kernel = match kind {
        LayerKind::Sliding => Kernel::AppendSliding,
        LayerKind::Global => Kernel::AppendGlobal,
    };
    let kv: u64 = d.kv_width(kind) as u64;
    let len: u64 = c.n_real as u64 * kv;
    record_bound(
        plan,
        kernel,
        vec![
            Binding { buffer: Buffer::Prefill(src), extent: Extent::Range(0, len) },
            Binding { buffer: store, extent: Extent::Whole },
            Binding { buffer: Buffer::Step, extent: Extent::Whole },
        ],
        Push::Nothing,
        Groups::Covering(len),
    );
}

/// Appends the attention of a chunk.
fn record_chunk_attention(
    d: &ModelDesc,
    i: usize,
    kind: LayerKind,
    c: ChunkShape,
    plan: &mut Vec<Dispatch>,
)
    requires
        d.wf(),
        c.wf(*d),
    ensures
        steps(final(plan)@) == steps(old(plan)@) + chunk_attention(*d, i, kind, c),
{
    let ghost had = steps(plan@);
    let attn = Buffer::Prefill(Slot::Attn(kind));
    let grid = Groups::Exact(d.n_kv_heads(kind) as u32, c.m_pad as u32, 1);
    match kind {
        LayerKind::Sliding => {
            record(
                plan,
                Kernel::PrefillSliding,
                vec![
                    Buffer::Prefill(Slot::Q(kind)),
                    Buffer::Keys(i),
                    Buffer::Values(i),
                    Buffer::Prefill(Slot::K(kind)),
                    Buffer::Prefill(Slot::V(kind)),
                    attn,
                    Buffer::Step,
                ],
                Push::Word(ONE_BITS),
                grid,
            );
            record_append(d, kind, c, Slot::K(kind), Buffer::Keys(i), plan);
            record_append(d, kind, c, Slot::V(kind), Buffer::Values(i), plan);
        },
        LayerKind::Global => {
            record_append(d, kind, c, Slot::K(kind), Buffer::Keys(i), plan);
            record_append(d, kind, c, Slot::V(kind), Buffer::Values(i), plan);
            record(
                plan,
                Kernel::PrefillGlobal,
                vec![
                    Buffer::Prefill(Slot::Q(kind)),
                    Buffer::Keys(i),
                    Buffer::Values(i),
                    attn,
                    Buffer::Step,
                ],
                Push::Word(ONE_BITS),
                grid,
            );
        },
    }
    assert(steps(plan@) =~= had + chunk_attention(*d, i, kind, c));
}

/// Appends the output projection of a chunk's attention.
fn record_chunk_output(i: usize, kind: LayerKind, c: ChunkShape, plan: &mut Vec<Dispatch>)
    requires
        c.m_pad <= u32::MAX,
    ensures
        steps(final(plan)@) == steps(old(plan)@) + chunk_output(i, kind, c),
{
    let ghost had = steps(plan@);
    let attn = Buffer::Prefill(Slot::Attn(kind));
    let kernel: Kernel = match kind {
        LayerKind::Sliding => Kernel::GemmOSliding,
        LayerKind::Global => Kernel::GemmOGlobal,
    };
    record_touch(plan, attn);
    record_gemm(
        plan,
        kernel,
        Buffer::Weight(i, Tensor::AttnOutput),
        attn,
        Buffer::Prefill(Slot::O),
        (HIDDEN / 64) as u32,
        (c.m_pad / 64) as u32,
    );
    assert(steps(plan@) =~= had + chunk_output(i, kind, c));
}

fn record_gemm_i8(
    plan: &mut Vec<Dispatch>,
    kernel: Kernel,
    w: Buffer,
    quants: Slot,
    scales: Slot,
    y: Slot,
    cols: u32,
    c: ChunkShape,
)
    requires
        c.m_pad <= u32::MAX,
    ensures
        steps(final(plan)@) == steps(old(plan)@).push(
            gemm_i8(kernel, w, quants, scales, y, cols as int, c),
        ),
{
    record(
        plan,
        kernel,
        vec![w, Buffer::Prefill(quants), Buffer::Prefill(scales), Buffer::Prefill(y)],
        Push::Nothing,
        Groups::Exact(cols, (c.m_pad / 32) as u32, 1),
    );
}

fn record_quantize(plan: &mut Vec<Dispatch>, x: Slot, scales: Slot, quants: Slot, len: u64)
    ensures
        steps(final(plan)@) == steps(old(plan)@).push(quantized(x, scales, quants, len as int)),
{
    record(
        plan,
        Kernel::QuantQ8,
        vec![Buffer::Prefill(x), Buffer::Prefill(scales), Buffer::Prefill(quants)],
        Push::Nothing,
        Groups::Covering(len / 32),
    );
}

/// Appends the widening products of a chunk.
fn record_gate_up(i: usize, c: ChunkShape, int8: bool, plan: &mut Vec<Dispatch>)
    requires
        c.m_pad <= u32::MAX,
    ensures
        steps(final(plan)@) == steps(old(plan)@) + chunk_gate_up(i, c, int8),
{
    let ghost had = steps(plan@);
    let gate = Buffer::Weight(i, Tensor::FfnGate);
    let up = Buffer::Weight(i, Tensor::FfnUp);
    let fin = Buffer::Prefill(Slot::Fin);
    record_norm(
        plan,
        Kernel::Rms5376,
        Buffer::Prefill(Slot::X2),
        Buffer::Weight(i, Tensor::FfnNorm),
        fin,
        c.m_pad as u32,
    );
    record_touch(plan, fin);
    if int8 {
        record_quantize(
            plan,
            Slot::Fin,
            Slot::FinScales,
            Slot::FinI8,
            c.m_pad as u64 * HIDDEN as u64,
        );
        record_touch(plan, Buffer::Prefill(Slot::FinI8));
        let cols: u32 = (FFN / 32) as u32;
        record_gemm_i8(
            plan,
            Kernel::GemmUpI8,
            gate,
            Slot::FinI8,
            Slot::FinScales,
            Slot::G,
            cols,
            c,
        );
        record_gemm_i8(plan, Kernel::GemmUpI8, up, Slot::FinI8, Slot::FinScales, Slot::U, cols, c);
    } else {
        let cols: u32 = (FFN / 64) as u32;
        let rows: u32 = (c.m_pad / 64) as u32;
        record_gemm(plan, Kernel::GemmUp, gate, fin, Buffer::Prefill(Slot::G), cols, rows);
        record_gemm(plan, Kernel::GemmUp, up, fin, Buffer::Prefill(Slot::U), cols, rows);
    }
    assert(steps(plan@) =~= had + chunk_gate_up(i, c, int8));
}

/// Appends the gated product and the down product of a chunk.
fn record_down(i: usize, c: ChunkShape, int8: bool, plan: &mut Vec<Dispatch>)
    requires
        c.m_pad <= u32::MAX,
        c.max_chunk * FFN <= u64::MAX,
    ensures
        steps(final(plan)@) == steps(old(plan)@) + chunk_down(i, c, int8),
{
    let ghost had = steps(plan@);
    let down = Buffer::Weight(i, Tensor::FfnDown);
    let gu = Buffer::Prefill(Slot::Gu);
    record(
        plan,
        Kernel::Geglu,
        vec![Buffer::Prefill(Slot::G), Buffer::Prefill(Slot::U), gu],
        Push::Nothing,
        Groups::Covering(c.max_chunk as u64 * FFN as u64),
    );
    if int8 {
        record_quantize(plan, Slot::Gu, Slot::GuScales, Slot::GuI8, c.m_pad as u64 * FFN as u64);
        record_touch(plan, Buffer::Prefill(Slot::GuI8));
        record_gemm_i8(
            plan,
            Kernel::GemmDownI8,
            down,
            Slot::GuI8,
            Slot::GuScales,
            Slot::F,
            (HIDDEN / 32) as u32,
            c,
        );
    } else {
        record_touch(plan, gu);
        record_gemm(
            plan,
            Kernel::GemmDown,
            down,
            gu,
            Buffer::Prefill(Slot::F),
            (HIDDEN / 64) as u32,
            (c.m_pad / 64) as u32,
        );
    }
    assert(steps(plan@) =~= had + chunk_down(i, c, int8));
}

/// Appends layer `i` for a chunk; with `int8` its feed-forward products run on
/// quantized activations.
pub fn record_prefill_layer(
    d: &ModelDesc,
    i: usize,
    c: ChunkShape,
    int8: bool,
    scale: u32,
    plan: &mut Vec<Dispatch>,
)
    requires
        d.wf(),
        c.wf(*d),
        i < d.n_layers,
    ensures
        steps(final(plan)@) == steps(old(plan)@) + chunk_layer(*d, i, c, int8, scale),
{
    let ghost had = steps(plan@);
    let kind = d.layer_kinds[i];
    let rows: u32 = c.m_pad as u32;
    let len: u64 = c.max_chunk as u64 * HIDDEN as u64;
    record_chunk_projections(d, i, kind, c, plan);
    record_heads(d, i, kind, c.m_pad, true, plan);
    record_chunk_attention(d, i, kind, c, plan);
    record_chunk_output(i, kind, c, plan);
    record_attention_end(i, rows, true, len, plan);
    record_gate_up(i, c, int8, plan);
    record_down(i, c, int8, plan);
    record_ffn_end(i, rows, true, scale, len, plan);
    assert(steps(plan@) =~= had + chunk_layer(*d, i, c, int8, scale));
}

/// Appends the final norm and the LM head over the last real row of a chunk.
pub fn record_prefill_logits(d: &ModelDesc, n_real: usize, plan: &mut Vec<Dispatch>)
    requires
        d.wf(),
        0 < n_real,
        n_real * HIDDEN <= u64::MAX,
    ensures
        steps(final(plan)@) == steps(old(plan)@) + chunk_logits(*d, n_real as int),
{
    let ghost had = steps(plan@);
    let to: u64 = n_real as u64 * HIDDEN as u64;
    let from: u64 = to - HIDDEN as u64;
    record_bound(
        plan,
        Kernel::Rms5376,
        vec![
            Binding { buffer: Buffer::Prefill(Slot::X), extent: Extent::Range(from, to) },
            Binding { buffer: Buffer::OutputNorm, extent: Extent::Whole },
            Binding { buffer: Buffer::Decode(Slot::Xn), extent: Extent::Whole },
        ],
        Push::Nothing,
        Groups::Exact(1, 1, 1),
    );
    record(
        plan,
        Kernel::Logits,
        vec![Buffer::TokenEmbd, Buffer::Decode(Slot::Xn), Buffer::Decode(Slot::Logits)],
        Push::Nothing,
        Groups::Exact(d.vocab_size as u32, 1, 1),
    );
    assert(steps(plan@) =~= had + chunk_logits(*d, n_real as int));
}

/// The layers `from..to` for a chunk, one after the other.
pub open spec fn chunk_layers(
    d: ModelDesc,
    scales: Seq<u32>,
    c: ChunkShape,
    int8: bool,
    from: int,
    to: int,
) -> Seq<Step>
    decreases to - from,
{
    if to <= from {
        Seq::empty()
    } else {
        chunk_layers(d, scales, c, int8, from, to - 1) + chunk_layer(
            d,
            (to - 1) as usize,
            c,
            int8,
            scales[to - 1],
        )
    }
}

/// The graph of the layers `from..to` for a chunk.
pub fn prefill_layers(
    d: &ModelDesc,
    scales: &Vec<u32>,
    c: ChunkShape,
    int8: bool,
    from: usize,
    to: usize,
) -> (plan: Vec<Dispatch>)
    requires
        d.wf(),
        c.wf(*d),
        scales@.len() == d.n_layers,
        from <= to <= d.n_layers,
    ensures
        steps(plan@) == chunk_layers(*d, scales@, c, int8, from as int, to as int),
{
    let mut plan: Vec<Dispatch> = Vec::new();
    assert(steps(plan@) =~= chunk_layers(*d, scales@, c, int8, from as int, from as int));
    let mut i: usize = from;
    while i < to
        invariant
            d.wf(),
            c.wf(*d),
            scales@.len() == d.n_layers,
            from <= i <= to <= d.n_layers,
            steps(plan@) == chunk_layers(*d, scales@, c, int8, from as int, i as int),
        decreases to - i,
    {
        record_prefill_layer(d, i, c, int8, scales[i], &mut plan);
        i = i + 1;
    }
    plan
}

/// The first layer of segment `k`.
pub open spec fn segment_start(k: int) -> int {
    k * 6
}

/// The layer behind segment `k` of `n` layers.
pub open spec fn segment_end(k: int, n: int) -> int {
    if (k + 1) * 6 < n {
        (k + 1) * 6
    } else {
        n
    }
}

/// How many segments `n` layers make.
pub open spec fn segment_count(n: int) -> int {
    (n + 5) / 6
}

/// The steps of segment `k` of a chunk; the last one ends with the logits
/// where they are wanted.
pub open spec fn segment_steps(
    d: ModelDesc,
    scales: Seq<u32>,
    c: ChunkShape,
    int8: bool,
    mode: LogitsMode,
    k: int,
) -> Seq<Step> {
    let n = d.n_layers as int;
    let end = segment_end(k, n);
    chunk_layers(d, scales, c, int8, segment_start(k), end) + (if mode == LogitsMode::Last && end
        == n {
        chunk_logits(d, c.n_real as int)
    } else {
        Seq::empty()
    })
}

/// The graphs of one prefill chunk, to be submitted in order. Padding rows
/// compute what nothing reads: the causal mask hides their keys from real
/// queries, appends bind the real rows only, and logits read the last real
/// row.
pub fn record_prefill(
    d: &ModelDesc,
    scales: &Vec<u32>,
    c: ChunkShape,
    int8: bool,
    mode: LogitsMode,
) -> (segments: Vec<Vec<Dispatch>>)
    requires
        d.wf(),
        c.wf(*d),
        scales@.len() == d.n_layers,
    ensures
        segments@.len() == segment_count(d.n_layers as int),
        forall|k: int|
            0 <= k < segments@.len() ==> steps((#[trigger] segments@[k])@) == segment_steps(
                *d,
                scales@,
                c,
                int8,
                mode,
                k,
            ),
{
    let n: usize = d.n_layers;
    let mut segments: Vec<Vec<Dispatch>> = Vec::new();
    let mut start: usize = 0;
    while start < n
        invariant
            n == d.n_layers,
            d.wf(),
            c.wf(*d),
            scales@.len() == n,
            start <= n,
            start == segment_start(segments@.len() as int) || start == n && segments@.len()
                == segment_count(n as int),
            forall|k: int|
                0 <= k < segments@.len() ==> steps((#[trigger] segments@[k])@) == segment_steps(
                    *d,
                    scales@,
                    c,
                    int8,
                    mode,
                    k,
                ),
        decreases n - start,
    {
        let end: usize = if n - start > PREFILL_SEGMENT_LAYERS {
            start + PREFILL_SEGMENT_LAYERS
        } else {
            n
        };
        let ghost k = segments@.len() as int;
        let mut plan = prefill_layers(d, scales, c, int8, start, end);
        let ghost layers = steps(plan@);
        if end == n && mode == LogitsMode::Last {
            record_prefill_logits(d, c.n_real, &mut plan);
        } else {
            assert(layers + Seq::<Step>::empty() =~= layers);
        }
        assert(steps(plan@) == segment_steps(*d, scales@, c, int8, mode, k));
        segments.push(plan);
        start = end;
    }
    segments
}

/// A chunk of a prompt: the tokens from `start`, `n_real` of them, in `m_pad`
/// rows.
#[derive(Debug, Clone, Copy, PartialEq, Eq, Structural)]
pub struct Chunk {
    pub start: usize,
    pub n_real: usize,
    pub m_pad: usize,
    pub mode: LogitsMode,
}

/// How many chunks `n` tokens make.
pub open spec fn chunk_count(n: int, max_chunk: int) -> int {
    (n + max_chunk - 1) / max_chunk
}

/// Chunk `k` of `n` tokens: a full one, or what is left at the end. With
/// `logits` the last one computes them.
pub open spec fn chunk_of(n: int, max_chunk: int, k: int, logits: bool) -> Chunk {
    let start = k * max_chunk;
    let left = n - start;
    let n_real = if left < max_chunk {
        left
    } else {
        max_chunk
    };
    Chunk {
        start: start as usize,
        n_real: n_real as usize,
        m_pad: padded(n_real) as usize,
        mode: if logits && left <= max_chunk {
            LogitsMode::Last
        } else {
            LogitsMode::Nothing
        },
    }
}

/// Cuts `n` tokens into chunks of at most `max_chunk`. With `logits` the last
/// chunk computes the last token's; without, none does.
pub fn prefill_chunks(n: usize, max_chunk: usize, logits: bool) -> (chunks: Vec<Chunk>)
    requires
        0 < max_chunk,
        max_chunk + 63 <= usize::MAX,
    ensures
        chunks@.len() == chunk_count(n as int, max_chunk as int),
        forall|k: int|
            0 <= k < chunks@.len() ==> #[trigger] chunks@[k] == chunk_of(
                n as int,
                max_chunk as int,
                k,
                logits,
            ),
{
    let mut chunks: Vec<Chunk> = Vec::new();
    let mut start: usize = 0;
    let ghost m = max_chunk as int;
    assert(0 * m == 0) by (nonlinear_arith);
    proof {
        if n == 0 {
            lemma_count_end(0, m, 0);
        }
    }
    while start < n
        invariant
            0 < max_chunk,
            max_chunk + 63 <= usize::MAX,
            m == max_chunk,
            start <= n,
            start < n ==> start == chunks@.len() * m,
            start == n ==> chunks@.len() == chunk_count(n as int, m),
            forall|k: int|
                0 <= k < chunks@.len() ==> #[trigger] chunks@[k] == chunk_of(
                    n as int,
                    m,
                    k,
                    logits,
                ),
        decreases n - start,
    {
        let left: usize = n - start;
        let n_real: usize = if left < max_chunk {
            left
        } else {
            max_chunk
        };
        let mode: LogitsMode = if logits && left <= max_chunk {
            LogitsMode::Last
        } else {
            LogitsMode::Nothing
        };
        let ghost k = chunks@.len() as int;
        let chunk = Chunk { start, n_real, m_pad: pad_rows(n_real), mode };
        chunks.push(chunk);
        assert(chunks@[k] == chunk_of(n as int, m, k, logits));
        start = start + n_real;
        proof {
            assert((k + 1) * m == k * m + m) by (nonlinear_arith);
            if start == n {
                lemma_count_end(n as int, m, k + 1);
            }
        }
    }
    chunks
}

proof fn lemma_count_end(n: int, m: int, k: int)
    requires
        0 < m,
        0 <= k,
        0 <= n,
        k * m >= n,
        k > 0 ==> (k - 1) * m < n,
        k == 0 ==> n == 0,
    ensures
        chunk_count(n, m) == k,
{
    let a = n + m - 1;
    assert((k - 1) * m == k * m - m) by (nonlinear_arith);
    assert(k * m <= a < (k + 1) * m) by {
        assert((k + 1) * m == k * m + m) by (nonlinear_arith);
    }
    let r = a - k * m;
    assert(a == k * m + r);
    vstd::arithmetic::div_mod::lemma_fundamental_div_mod_converse(a, m, k, r);
}

/// The chunks hold every token once, in order: each starts where the one
/// before it ends, the first at 0, and the last ends with the prompt.
pub proof fn lemma_chunks_cover(n: int, max_chunk: int, k: int, logits: bool)
    requires
        0 <= n <= usize::MAX,
        0 < max_chunk,
        max_chunk + 63 <= usize::MAX,
        max_chunk % 64 == 0,
        0 <= k < chunk_count(n, max_chunk),
    ensures
        ({
            let c = chunk_of(n, max_chunk, k, logits);
            let last = k + 1 == chunk_count(n, max_chunk);
            &&& k == 0 ==> c.start == 0
            &&& !last ==> chunk_of(n, max_chunk, k + 1, logits).start == c.start + c.n_real
            &&& last ==> c.start + c.n_real == n
            &&& c.start + c.n_real <= n
            &&& 0 < c.n_real <= c.m_pad <= max_chunk
            &&& c.m_pad < c.n_real + 64
            &&& c.m_pad % 64 == 0
            &&& c.mode == (if logits && last {
                LogitsMode::Last
            } else {
                LogitsMode::Nothing
            })
        }),
{
    let total = chunk_count(n, max_chunk);
    let m = max_chunk;
    let a = n + m - 1;
    vstd::arithmetic::div_mod::lemma_fundamental_div_mod(a, m);
    assert(m * total == total * m) by (nonlinear_arith);
    assert(total * m <= a < total * m + m);
    assert(k * m <= (total - 1) * m) by (nonlinear_arith)
        requires
            k <= total - 1,
            m > 0,
    ;
    assert((total - 1) * m == total * m - m) by (nonlinear_arith);
    assert((k + 1) * m == k * m + m) by (nonlinear_arith);
    assert(0 * m == 0) by (nonlinear_arith);
    assert(k * m >= 0) by (nonlinear_arith)
        requires
            k >= 0,
            m > 0,
    ;
    if k + 1 < total {
        assert((k + 1) * m <= (total - 1) * m) by (nonlinear_arith)
            requires
                k + 1 <= total - 1,
                m > 0,
        ;
    }
}

/// Segments hold every layer once, in order, at most six each.
pub proof fn lemma_segments_cover(n: int, k: int)
    requires
        0 <= n,
        0 <= k < segment_count(n),
    ensures
        k == 0 ==> segment_start(k) == 0,
        k + 1 < segment_count(n) ==> segment_end(k, n) == segment_start(k + 1),
        k + 1 == segment_count(n) ==> segment_end(k, n) == n,
        segment_start(k) < segment_end(k, n) <= segment_start(k) + 6,
{
}

/// The first row of batch `k` of the LM head over all rows.
pub open spec fn batch_of(n_real: int, k: int) -> (int, int) {
    let start = k * 32;
    (
        start,
        if n_real - start < 32 {
            n_real - start
        } else {
            32
        },
    )
}

/// Cuts the rows of a chunk into batches for the LM head: each a first row
/// and a number of rows.
pub fn logits_batches(n_real: usize) -> (batches: Vec<(usize, usize)>)
    requires
        n_real + 31 <= usize::MAX,
    ensures
        batches@.len() == (n_real + 31) / 32,
        forall|k: int|
            0 <= k < batches@.len() ==> (
                (#[trigger] batches@[k]).0 as int,
                batches@[k].1 as int,
            ) == batch_of(n_real as int, k),
{
    let mut batches: Vec<(usize, usize)> = Vec::new();
    let mut r0: usize = 0;
    while r0 < n_real
        invariant
            n_real + 31 <= usize::MAX,
            r0 <= n_real,
            r0 < n_real ==> r0 == batches@.len() * 32,
            r0 == n_real ==> batches@.len() == (n_real + 31) / 32,
            forall|k: int|
                0 <= k < batches@.len() ==> (
                    (#[trigger] batches@[k]).0 as int,
                    batches@[k].1 as int,
                ) == batch_of(n_real as int, k),
        decreases n_real - r0,
    {
        let len: usize = if n_real - r0 < LOGITS_BATCH {
            n_real - r0
        } else {
            LOGITS_BATCH
        };
        batches.push((r0, len));
        r0 = r0 + len;
    }
    batches
}

/// The LM head over row `r` of a chunk.
pub open spec fn row_logits(d: ModelDesc, r: int) -> Step {
    Step {
        kernel: Kernel::Logits,
        bindings: seq![
            bound(Buffer::TokenEmbd),
            Binding {
                buffer: Buffer::Prefill(Slot::Xn),
                extent: Extent::Range((r * HIDDEN) as u64, ((r + 1) * HIDDEN) as u64),
            },
            Binding {
                buffer: Buffer::LogitsAll,
                extent: Extent::Range((r * d.vocab_size) as u64, ((r + 1) * d.vocab_size) as u64),
            },
        ],
        push: Push::Nothing,
        groups: Groups::Exact(d.vocab_size as u32, 1, 1),
    }
}

/// The graph of the LM head over the rows `r0 .. r0 + len`.
pub fn logits_batch(d: &ModelDesc, r0: usize, len: usize) -> (plan: Vec<Dispatch>)
    requires
        d.wf(),
        (r0 + len) * HIDDEN <= u64::MAX,
        (r0 + len) * d.vocab_size <= u64::MAX,
        r0 + len <= usize::MAX,
    ensures
        steps(plan@) == Seq::new(len as nat, |k: int| row_logits(*d, r0 + k)),
{
    let mut plan: Vec<Dispatch> = Vec::new();
    let vocab: u64 = d.vocab_size as u64;
    let width: u64 = HIDDEN as u64;
    let mut k: usize = 0;
    assert(steps(plan@) =~= Seq::new(0, |k: int| row_logits(*d, r0 + k)));
    while k < len
        invariant
            d.wf(),
            k <= len,
            vocab == d.vocab_size,
            width == HIDDEN,
            (r0 + len) * HIDDEN <= u64::MAX,
            (r0 + len) * d.vocab_size <= u64::MAX,
            r0 + len <= usize::MAX,
            steps(plan@) == Seq::new(k as nat, |k: int| row_logits(*d, r0 + k)),
        decreases len - k,
    {
        let r: u64 = (r0 + k) as u64;
        assert((r + 1) * vocab <= (r0 + len) * d.vocab_size) by (nonlinear_arith)
            requires
                r + 1 <= r0 + len,
                vocab == d.vocab_size,
        ;
        assert(r * vocab <= (r + 1) * vocab) by (nonlinear_arith);
        record_bound(
            &mut plan,
            Kernel::Logits,
            vec![
                Binding { buffer: Buffer::TokenEmbd, extent: Extent::Whole },
                Binding {
                    buffer: Buffer::Prefill(Slot::Xn),
                    extent: Extent::Range(r * width, (r + 1) * width),
                },
                Binding {
                    buffer: Buffer::LogitsAll,
                    extent: Extent::Range(r * vocab, (r + 1) * vocab),
                },
            ],
            Push::Nothing,
            Groups::Exact(d.vocab_size as u32, 1, 1),
        );
        k = k + 1;
        assert(steps(plan@) =~= Seq::new(k as nat, |k: int| row_logits(*d, r0 + k)));
    }
    plan
}

/// The graph of the final norm over all rows of a chunk.
pub fn norm_all(m_pad: usize) -> (plan: Vec<Dispatch>)
    requires
        m_pad <= u32::MAX,
    ensures
        steps(plan@) == seq![
            norm(
                Kernel::Rms5376,
                Buffer::Prefill(Slot::X),
                Buffer::OutputNorm,
                Buffer::Prefill(Slot::Xn),
                m_pad as int,
            ),
        ],
{
    let mut plan: Vec<Dispatch> = Vec::new();
    record_norm(
        &mut plan,
        Kernel::Rms5376,
        Buffer::Prefill(Slot::X),
        Buffer::OutputNorm,
        Buffer::Prefill(Slot::Xn),
        m_pad as u32,
    );
    assert(steps(plan@) =~= seq![
        norm(
            Kernel::Rms5376,
            Buffer::Prefill(Slot::X),
            Buffer::OutputNorm,
            Buffer::Prefill(Slot::Xn),
            m_pad as int,
        ),
    ]);
    plan
}

/// Batches hold every row once, in order, at most 32 each.
pub proof fn lemma_batches_cover(n_real: int, k: int)
    requires
        0 <= n_real,
        0 <= k < (n_real + 31) / 32,
    ensures
        k == 0 ==> batch_of(n_real, k).0 == 0,
        k + 1 < (n_real + 31) / 32 ==> batch_of(n_real, k).0 + batch_of(n_real, k).1 == batch_of(
            n_real,
            k + 1,
        ).0,
        k + 1 == (n_real + 31) / 32 ==> batch_of(n_real, k).0 + batch_of(n_real, k).1 == n_real,
        0 < batch_of(n_real, k).1 <= 32,
{
}

/// Runs of layers join: the segments of a chunk, one after the other, are all
/// its layers.
pub proof fn lemma_layers_join(
    d: ModelDesc,
    scales: Seq<u32>,
    c: ChunkShape,
    int8: bool,
    from: int,
    mid: int,
    to: int,
)
    requires
        from <= mid <= to,
    ensures
        chunk_layers(d, scales, c, int8, from, mid) + chunk_layers(d, scales, c, int8, mid, to)
            == chunk_layers(d, scales, c, int8, from, to),
    decreases to - mid,
{
    let head = chunk_layers(d, scales, c, int8, from, mid);
    if mid < to {
        lemma_layers_join(d, scales, c, int8, from, mid, to - 1);
        let last = chunk_layer(d, (to - 1) as usize, c, int8, scales[to - 1]);
        assert(head + chunk_layers(d, scales, c, int8, mid, to) =~= head + chunk_layers(
            d,
            scales,
            c,
            int8,
            mid,
            to - 1,
        ) + last);
    } else {
        assert(head + chunk_layers(d, scales, c, int8, mid, to) =~= head);
    }
}

} // verus!
