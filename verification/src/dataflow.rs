//! What the steps of a graph read and write: no step reads an activation
//! before a step has written it, and no matrix product reads one without the
//! barrier behind its producer.

use vstd::prelude::*;

use crate::graph::{
    decode_attention, decode_ffn, decode_layer, decode_layers, decode_logits, decode_projections,
    heads_turned, joined_residual, norm, placed, value_source, Binding, Buffer, Extent, Groups,
    Kernel, Slot, Step, ONE_BITS,
};
use crate::prefill::{
    chunk_append, chunk_attention, chunk_down, chunk_gate_up, chunk_layer, chunk_layers,
    chunk_logits, chunk_output, chunk_projections, row_logits, ChunkShape,
};
use crate::shape::{LayerKind, ModelDesc, HIDDEN};
use crate::stage::prefill_size;
use crate::weights::{has_tensor, Tensor};

verus! {

/// The buffer of binding `i`.
pub open spec fn at(s: Step, i: int) -> Buffer {
    s.bindings[i].buffer
}

/// What a step reads.
pub open spec fn inputs(s: Step) -> Set<Buffer> {
    match s.kernel {
        Kernel::AppendSliding | Kernel::AppendGlobal => set![at(s, 0), at(s, 2)],
        Kernel::AttnSliding | Kernel::AttnGlobal | Kernel::PrefillGlobal => set![
            at(s, 0),
            at(s, 1),
            at(s, 2),
            at(s, 4),
        ],
        Kernel::PrefillSliding => set![at(s, 0), at(s, 1), at(s, 2), at(s, 3), at(s, 4), at(s, 6)],
        Kernel::Reduce256 | Kernel::Reduce512 | Kernel::QuantQ8 | Kernel::Touch => set![at(s, 0)],
        Kernel::GemmUpI8 | Kernel::GemmDownI8 => set![at(s, 0), at(s, 1), at(s, 2)],
        _ => set![at(s, 0), at(s, 1)],
    }
}

/// What a step writes.
pub open spec fn outputs(s: Step) -> Set<Buffer> {
    match s.kernel {
        Kernel::AppendSliding | Kernel::AppendGlobal | Kernel::Reduce256 | Kernel::Reduce512 =>
            set![at(s, 1)],
        Kernel::AttnSliding | Kernel::AttnGlobal | Kernel::PrefillGlobal => set![at(s, 3)],
        Kernel::GemmUpI8 | Kernel::GemmDownI8 => set![at(s, 3)],
        Kernel::PrefillSliding => set![at(s, 5)],
        Kernel::QuantQ8 => set![at(s, 1), at(s, 2)],
        Kernel::RopeSlidingQ | Kernel::RopeSlidingK | Kernel::RopeGlobalQ | Kernel::RopeGlobalK =>
            set![at(s, 0)],
        Kernel::Touch => Set::empty(),
        _ => set![at(s, 2)],
    }
}

/// The matrix products that read their activation, binding 1, through
/// cooperative loads only.
pub open spec fn is_gemm(kernel: Kernel) -> bool {
    match kernel {
        Kernel::GemmQSliding
        | Kernel::GemmQGlobal
        | Kernel::GemmKvSliding
        | Kernel::GemmKvGlobal
        | Kernel::GemmOSliding
        | Kernel::GemmOGlobal
        | Kernel::GemmUp
        | Kernel::GemmDown
        | Kernel::GemmUpI8
        | Kernel::GemmDownI8 => true,
        _ => false,
    }
}

/// Buffers that hold something before a graph runs: the weights that the
/// layers have, the stores, and what the host writes besides the residual
/// stream.
pub open spec fn outside(kinds: Seq<LayerKind>, b: Buffer) -> bool {
    match b {
        Buffer::Decode(Slot::CosSin(_)) | Buffer::Prefill(Slot::CosSin(_)) => true,
        Buffer::Decode(_) | Buffer::Prefill(_) | Buffer::LogitsAll => false,
        Buffer::Weight(i, t) => i < kinds.len() && has_tensor(kinds[i as int], t),
        Buffer::Keys(i) | Buffer::Values(i) => i < kinds.len(),
        _ => true,
    }
}

/// How far a graph has come: what has been written, and what has been touched
/// since it was last written, over layers of these kinds.
pub struct Flow {
    pub kinds: Seq<LayerKind>,
    pub written: Set<Buffer>,
    pub touched: Set<Buffer>,
}

impl Flow {
    /// Layer `i` is of this kind.
    pub open spec fn layer(self, i: usize, kind: LayerKind) -> bool {
        i < self.kinds.len() && self.kinds[i as int] == kind
    }

    pub open spec fn holds(self, b: Buffer) -> bool {
        outside(self.kinds, b) || self.written.contains(b)
    }

    /// Everything that a step reads is there, and behind its barrier where
    /// the step needs one.
    pub open spec fn allows(self, s: Step) -> bool {
        &&& forall|b: Buffer| #[trigger] inputs(s).contains(b) ==> self.holds(b)
        &&& is_gemm(s.kernel) ==> self.touched.contains(at(s, 1))
    }

    pub open spec fn past(self, s: Step) -> Flow {
        let touched = self.touched.difference(outputs(s));
        Flow {
            kinds: self.kinds,
            written: self.written.union(outputs(s)),
            touched: if s.kernel == Kernel::Touch {
                touched.insert(at(s, 0))
            } else {
                touched
            },
        }
    }

    /// After the steps from `i` on.
    pub open spec fn through(self, list: Seq<Step>, i: int) -> Flow
        decreases list.len() - i,
    {
        if i < 0 || i >= list.len() {
            self
        } else {
            self.past(list[i]).through(list, i + 1)
        }
    }

    /// Whether the steps from `i` on are all allowed.
    pub open spec fn runs(self, list: Seq<Step>, i: int) -> bool
        decreases list.len() - i,
    {
        if i < 0 || i >= list.len() {
            true
        } else {
            self.allows(list[i]) && self.past(list[i]).runs(list, i + 1)
        }
    }
}

proof fn lemma_grows(f: Flow, list: Seq<Step>, i: int)
    ensures
        f.written.subset_of(f.through(list, i).written),
        f.through(list, i).kinds == f.kinds,
    decreases list.len() - i,
{
    if 0 <= i < list.len() {
        lemma_grows(f.past(list[i]), list, i + 1);
    }
}

proof fn lemma_behind(f: Flow, a: Seq<Step>, b: Seq<Step>, i: int)
    requires
        0 <= i <= b.len(),
    ensures
        f.runs(a + b, a.len() + i) == f.runs(b, i),
        f.through(a + b, a.len() + i) == f.through(b, i),
    decreases b.len() - i,
{
    if i < b.len() {
        assert((a + b)[a.len() + i] == b[i]);
        lemma_behind(f.past(b[i]), a, b, i + 1);
    }
}

/// One list after another.
proof fn lemma_joined(f: Flow, a: Seq<Step>, b: Seq<Step>, i: int)
    requires
        0 <= i <= a.len(),
    ensures
        f.runs(a + b, i) == (f.runs(a, i) && f.through(a, i).runs(b, 0)),
        f.through(a + b, i) == f.through(a, i).through(b, 0),
    decreases a.len() - i,
{
    if i < a.len() {
        assert((a + b)[i] == a[i]);
        lemma_joined(f.past(a[i]), a, b, i + 1);
    } else {
        lemma_behind(f, a, b, 0);
    }
}

proof fn lemma_chunk_projections(f: Flow, d: ModelDesc, i: usize, kind: LayerKind, c: ChunkShape)
    requires
        f.layer(i, kind),
        f.holds(Buffer::Prefill(Slot::X)),
    ensures
        f.runs(chunk_projections(d, i, kind, c), 0),
        f.through(chunk_projections(d, i, kind, c), 0).holds(Buffer::Prefill(Slot::QRaw(kind))),
        f.through(chunk_projections(d, i, kind, c), 0).holds(Buffer::Prefill(Slot::Kp(kind))),
        f.through(chunk_projections(d, i, kind, c), 0).holds(
            Buffer::Prefill(value_source(kind)),
        ),
{
    reveal_with_fuel(Flow::runs, 6);
    reveal_with_fuel(Flow::through, 6);
}

proof fn lemma_heads(f: Flow, d: ModelDesc, i: usize, kind: LayerKind, m: int, chunk: bool)
    requires
        f.layer(i, kind),
        f.holds(placed(chunk, Slot::QRaw(kind))),
        f.holds(placed(chunk, Slot::Kp(kind))),
        f.holds(placed(chunk, value_source(kind))),
    ensures
        f.runs(heads_turned(d, i, kind, m, chunk), 0),
        f.through(heads_turned(d, i, kind, m, chunk), 0).holds(placed(chunk, Slot::Q(kind))),
        f.through(heads_turned(d, i, kind, m, chunk), 0).holds(placed(chunk, Slot::K(kind))),
        f.through(heads_turned(d, i, kind, m, chunk), 0).holds(placed(chunk, Slot::V(kind))),
{
    reveal_with_fuel(Flow::runs, 6);
    reveal_with_fuel(Flow::through, 6);
}

proof fn lemma_residual(
    f: Flow,
    i: usize,
    m: int,
    chunk: bool,
    result: Slot,
    weight: Tensor,
    normed: Slot,
    residual: Slot,
    sum: Slot,
    scale: u32,
    len: int,
)
    requires
        i < f.kinds.len(),
        weight != Tensor::AttnV,
        f.holds(placed(chunk, result)),
        f.holds(placed(chunk, residual)),
    ensures
        ({
            let list = joined_residual(
                i,
                m,
                chunk,
                result,
                weight,
                normed,
                residual,
                sum,
                scale,
                len,
            );
            f.runs(list, 0) && f.through(list, 0).holds(placed(chunk, sum))
        }),
{
    reveal_with_fuel(Flow::runs, 4);
    reveal_with_fuel(Flow::through, 4);
}

proof fn lemma_chunk_attention(f: Flow, d: ModelDesc, i: usize, kind: LayerKind, c: ChunkShape)
    requires
        f.layer(i, kind),
        f.holds(Buffer::Prefill(Slot::Q(kind))),
        f.holds(Buffer::Prefill(Slot::K(kind))),
        f.holds(Buffer::Prefill(Slot::V(kind))),
    ensures
        f.runs(chunk_attention(d, i, kind, c), 0),
        f.through(chunk_attention(d, i, kind, c), 0).holds(Buffer::Prefill(Slot::Attn(kind))),
{
    reveal_with_fuel(Flow::runs, 4);
    reveal_with_fuel(Flow::through, 4);
}

proof fn lemma_chunk_output(f: Flow, i: usize, kind: LayerKind, c: ChunkShape)
    requires
        f.layer(i, kind),
        f.holds(Buffer::Prefill(Slot::Attn(kind))),
    ensures
        f.runs(chunk_output(i, kind, c), 0),
        f.through(chunk_output(i, kind, c), 0).holds(Buffer::Prefill(Slot::O)),
{
    reveal_with_fuel(Flow::runs, 3);
    reveal_with_fuel(Flow::through, 3);
}

proof fn lemma_chunk_gate_up(f: Flow, i: usize, c: ChunkShape, int8: bool)
    requires
        i < f.kinds.len(),
        f.holds(Buffer::Prefill(Slot::X2)),
    ensures
        f.runs(chunk_gate_up(i, c, int8), 0),
        f.through(chunk_gate_up(i, c, int8), 0).holds(Buffer::Prefill(Slot::G)),
        f.through(chunk_gate_up(i, c, int8), 0).holds(Buffer::Prefill(Slot::U)),
{
    reveal_with_fuel(Flow::runs, 7);
    reveal_with_fuel(Flow::through, 7);
}

proof fn lemma_chunk_down(f: Flow, i: usize, c: ChunkShape, int8: bool)
    requires
        i < f.kinds.len(),
        f.holds(Buffer::Prefill(Slot::G)),
        f.holds(Buffer::Prefill(Slot::U)),
    ensures
        f.runs(chunk_down(i, c, int8), 0),
        f.through(chunk_down(i, c, int8), 0).holds(Buffer::Prefill(Slot::F)),
{
    reveal_with_fuel(Flow::runs, 5);
    reveal_with_fuel(Flow::through, 5);
}

/// In a layer over a chunk every activation is written before it is read, and
/// every matrix product reads its activation behind the barrier that follows
/// the last write. The residual stream goes in and comes out.
pub proof fn lemma_chunk_layer_flows(
    f: Flow,
    d: ModelDesc,
    i: usize,
    c: ChunkShape,
    int8: bool,
    scale: u32,
)
    requires
        f.kinds == d.layer_kinds@,
        i < d.layer_kinds@.len(),
        f.holds(Buffer::Prefill(Slot::X)),
    ensures
        f.runs(chunk_layer(d, i, c, int8, scale), 0),
        f.through(chunk_layer(d, i, c, int8, scale), 0).holds(Buffer::Prefill(Slot::X)),
{
    let kind = d.layer_kinds@[i as int];
    let m = c.m_pad as int;
    let len = c.max_chunk * HIDDEN;
    let p1 = chunk_projections(d, i, kind, c);
    let p2 = heads_turned(d, i, kind, m, true);
    let p3 = chunk_attention(d, i, kind, c);
    let p4 = chunk_output(i, kind, c);
    let p5 = joined_residual(
        i,
        m,
        true,
        Slot::O,
        Tensor::PostAttentionNorm,
        Slot::On,
        Slot::X,
        Slot::X2,
        ONE_BITS,
        len,
    );
    let p6 = chunk_gate_up(i, c, int8);
    let p7 = chunk_down(i, c, int8);
    let p8 = joined_residual(
        i,
        m,
        true,
        Slot::F,
        Tensor::PostFfwNorm,
        Slot::Fn2,
        Slot::X2,
        Slot::X,
        scale,
        len,
    );
    let f1 = f.through(p1, 0);
    let f2 = f1.through(p2, 0);
    let f3 = f2.through(p3, 0);
    let f4 = f3.through(p4, 0);
    let f5 = f4.through(p5, 0);
    let f6 = f5.through(p6, 0);
    let f7 = f6.through(p7, 0);
    lemma_grows(f, p1, 0);
    lemma_grows(f1, p2, 0);
    lemma_grows(f2, p3, 0);
    lemma_grows(f3, p4, 0);
    lemma_chunk_projections(f, d, i, kind, c);
    lemma_heads(f1, d, i, kind, m, true);
    lemma_chunk_attention(f2, d, i, kind, c);
    lemma_chunk_output(f3, i, kind, c);
    lemma_residual(
        f4,
        i,
        m,
        true,
        Slot::O,
        Tensor::PostAttentionNorm,
        Slot::On,
        Slot::X,
        Slot::X2,
        ONE_BITS,
        len,
    );
    lemma_grows(f4, p5, 0);
    lemma_grows(f5, p6, 0);
    lemma_grows(f6, p7, 0);
    lemma_chunk_gate_up(f5, i, c, int8);
    lemma_chunk_down(f6, i, c, int8);
    lemma_residual(
        f7,
        i,
        m,
        true,
        Slot::F,
        Tensor::PostFfwNorm,
        Slot::Fn2,
        Slot::X2,
        Slot::X,
        scale,
        len,
    );
    lemma_joined(f, p1, p2, 0);
    lemma_joined(f, p1 + p2, p3, 0);
    lemma_joined(f, p1 + p2 + p3, p4, 0);
    lemma_joined(f, p1 + p2 + p3 + p4, p5, 0);
    lemma_joined(f, p1 + p2 + p3 + p4 + p5, p6, 0);
    lemma_joined(f, p1 + p2 + p3 + p4 + p5 + p6, p7, 0);
    lemma_joined(f, p1 + p2 + p3 + p4 + p5 + p6 + p7, p8, 0);
}

/// The same of any run of layers over a chunk.
pub proof fn lemma_chunk_layers_flow(
    f: Flow,
    d: ModelDesc,
    scales: Seq<u32>,
    c: ChunkShape,
    int8: bool,
    from: int,
    to: int,
)
    requires
        f.kinds == d.layer_kinds@,
        d.wf(),
        0 <= from,
        to <= d.n_layers,
        f.holds(Buffer::Prefill(Slot::X)),
    ensures
        f.runs(chunk_layers(d, scales, c, int8, from, to), 0),
        f.through(chunk_layers(d, scales, c, int8, from, to), 0).holds(Buffer::Prefill(Slot::X)),
    decreases to - from,
{
    if from < to {
        let head = chunk_layers(d, scales, c, int8, from, to - 1);
        let i = (to - 1) as usize;
        lemma_chunk_layers_flow(f, d, scales, c, int8, from, to - 1);
        lemma_grows(f, head, 0);
        lemma_chunk_layer_flows(f.through(head, 0), d, i, c, int8, scales[to - 1]);
        lemma_joined(f, head, chunk_layer(d, i, c, int8, scales[to - 1]), 0);
    }
}

/// The logits of a chunk need no more than its residual stream.
pub proof fn lemma_chunk_logits_flow(f: Flow, d: ModelDesc, n_real: int)
    requires
        f.holds(Buffer::Prefill(Slot::X)),
    ensures
        f.runs(chunk_logits(d, n_real), 0),
        f.through(chunk_logits(d, n_real), 0).holds(Buffer::Decode(Slot::Logits)),
{
    reveal_with_fuel(Flow::runs, 3);
    reveal_with_fuel(Flow::through, 3);
}

proof fn lemma_decode_projections(f: Flow, d: ModelDesc, i: usize, kind: LayerKind)
    requires
        f.layer(i, kind),
        f.holds(Buffer::Decode(Slot::X)),
    ensures
        f.runs(decode_projections(d, i, kind), 0),
        f.through(decode_projections(d, i, kind), 0).holds(Buffer::Decode(Slot::QRaw(kind))),
        f.through(decode_projections(d, i, kind), 0).holds(Buffer::Decode(Slot::Kp(kind))),
        f.through(decode_projections(d, i, kind), 0).holds(Buffer::Decode(value_source(kind))),
{
    reveal_with_fuel(Flow::runs, 5);
    reveal_with_fuel(Flow::through, 5);
}

proof fn lemma_decode_attention(f: Flow, d: ModelDesc, i: usize, kind: LayerKind)
    requires
        f.layer(i, kind),
        f.holds(Buffer::Decode(Slot::Q(kind))),
        f.holds(Buffer::Decode(Slot::K(kind))),
        f.holds(Buffer::Decode(Slot::V(kind))),
    ensures
        f.runs(decode_attention(d, i, kind), 0),
        f.through(decode_attention(d, i, kind), 0).holds(Buffer::Decode(Slot::O)),
{
    reveal_with_fuel(Flow::runs, 6);
    reveal_with_fuel(Flow::through, 6);
}

proof fn lemma_decode_ffn(f: Flow, i: usize)
    requires
        i < f.kinds.len(),
        f.holds(Buffer::Decode(Slot::X2)),
    ensures
        f.runs(decode_ffn(i), 0),
        f.through(decode_ffn(i), 0).holds(Buffer::Decode(Slot::F)),
{
    reveal_with_fuel(Flow::runs, 6);
    reveal_with_fuel(Flow::through, 6);
}

/// In a layer for one token every activation is written before it is read.
/// The residual stream goes in and comes out.
pub proof fn lemma_decode_layer_flows(f: Flow, d: ModelDesc, i: usize, scale: u32)
    requires
        f.kinds == d.layer_kinds@,
        i < d.layer_kinds@.len(),
        f.holds(Buffer::Decode(Slot::X)),
    ensures
        f.runs(decode_layer(d, i, scale), 0),
        f.through(decode_layer(d, i, scale), 0).holds(Buffer::Decode(Slot::X)),
{
    let kind = d.layer_kinds@[i as int];
    let len = HIDDEN as int;
    let p1 = decode_projections(d, i, kind);
    let p2 = heads_turned(d, i, kind, 1, false);
    let p3 = decode_attention(d, i, kind);
    let p4 = joined_residual(
        i,
        1,
        false,
        Slot::O,
        Tensor::PostAttentionNorm,
        Slot::On,
        Slot::X,
        Slot::X2,
        ONE_BITS,
        len,
    );
    let p5 = decode_ffn(i);
    let p6 = joined_residual(
        i,
        1,
        false,
        Slot::F,
        Tensor::PostFfwNorm,
        Slot::Fn2,
        Slot::X2,
        Slot::X,
        scale,
        len,
    );
    let f1 = f.through(p1, 0);
    let f2 = f1.through(p2, 0);
    let f3 = f2.through(p3, 0);
    let f4 = f3.through(p4, 0);
    let f5 = f4.through(p5, 0);
    lemma_grows(f, p1, 0);
    lemma_grows(f1, p2, 0);
    lemma_grows(f2, p3, 0);
    lemma_decode_projections(f, d, i, kind);
    lemma_heads(f1, d, i, kind, 1, false);
    lemma_decode_attention(f2, d, i, kind);
    lemma_residual(
        f3,
        i,
        1,
        false,
        Slot::O,
        Tensor::PostAttentionNorm,
        Slot::On,
        Slot::X,
        Slot::X2,
        ONE_BITS,
        len,
    );
    lemma_grows(f3, p4, 0);
    lemma_decode_ffn(f4, i);
    lemma_grows(f4, p5, 0);
    lemma_residual(
        f5,
        i,
        1,
        false,
        Slot::F,
        Tensor::PostFfwNorm,
        Slot::Fn2,
        Slot::X2,
        Slot::X,
        scale,
        len,
    );
    lemma_joined(f, p1, p2, 0);
    lemma_joined(f, p1 + p2, p3, 0);
    lemma_joined(f, p1 + p2 + p3, p4, 0);
    lemma_joined(f, p1 + p2 + p3 + p4, p5, 0);
    lemma_joined(f, p1 + p2 + p3 + p4 + p5, p6, 0);
}

/// The same of any run of layers for one token, and of the logits behind it.
pub proof fn lemma_decode_flows(f: Flow, d: ModelDesc, scales: Seq<u32>, from: int, to: int)
    requires
        f.kinds == d.layer_kinds@,
        d.wf(),
        0 <= from,
        to <= d.n_layers,
        f.holds(Buffer::Decode(Slot::X)),
    ensures
        f.runs(decode_layers(d, scales, from, to), 0),
        f.through(decode_layers(d, scales, from, to), 0).holds(Buffer::Decode(Slot::X)),
        f.runs(decode_layers(d, scales, from, to) + decode_logits(d), 0),
    decreases to - from,
{
    let all = decode_layers(d, scales, from, to);
    if from < to {
        let head = decode_layers(d, scales, from, to - 1);
        let i = (to - 1) as usize;
        lemma_decode_flows(f, d, scales, from, to - 1);
        lemma_grows(f, head, 0);
        lemma_decode_layer_flows(f.through(head, 0), d, i, scales[to - 1]);
        lemma_joined(f, head, decode_layer(d, i, scales[to - 1]), 0);
    }
    let g = f.through(all, 0);
    assert(g.runs(decode_logits(d), 0)) by {
        reveal_with_fuel(Flow::runs, 3);
        reveal_with_fuel(Flow::through, 3);
    }
    lemma_joined(f, all, decode_logits(d), 0);
}

/// Elements of the buffers that are bound in part.
pub open spec fn room(d: ModelDesc, max_chunk: int, b: Buffer) -> int {
    match b {
        Buffer::Prefill(slot) => match prefill_size(d, slot, max_chunk) {
            Some((_, n)) => n,
            None => 0,
        },
        Buffer::LogitsAll => max_chunk * d.vocab_size,
        _ => 0,
    }
}

/// What is bound of a buffer lies in the buffer, and is not empty.
pub open spec fn in_room(d: ModelDesc, max_chunk: int, b: Binding) -> bool {
    match b.extent {
        Extent::Whole => true,
        Extent::Range(from, to) => from < to <= room(d, max_chunk, b.buffer),
    }
}

pub open spec fn all_in_room(d: ModelDesc, max_chunk: int, s: Step) -> bool {
    forall|i: int|
        0 <= i < s.bindings.len() ==> in_room(d, max_chunk, #[trigger] s.bindings[i])
}

/// Appending takes the real rows of a chunk and none of the padding: the rows
/// lie in their buffer, each as wide as an entry of the store.
pub proof fn lemma_append_takes_real_rows(
    d: ModelDesc,
    kind: LayerKind,
    c: ChunkShape,
    store: Buffer,
    values: bool,
)
    requires
        d.wf(),
        c.wf(d),
        0 < d.kv_dim(kind),
    ensures
        ({
            let src = if values {
                Slot::V(kind)
            } else {
                Slot::K(kind)
            };
            let s = chunk_append(d, kind, c, src, store);
            &&& all_in_room(d, c.max_chunk as int, s)
            &&& s.bindings[0].extent == Extent::Range(0, (c.n_real * d.kv_dim(kind)) as u64)
            &&& s.groups == Groups::Covering((c.n_real * d.kv_dim(kind)) as u64)
        }),
{
    let w = d.kv_dim(kind);
    assert(0 < c.n_real * w <= c.max_chunk * w) by (nonlinear_arith)
        requires
            0 < c.n_real <= c.max_chunk,
            0 < w,
    ;
}

/// The logits of a chunk read its last real row, which lies in the residual
/// stream.
pub proof fn lemma_logits_read_last_row(d: ModelDesc, c: ChunkShape)
    requires
        c.wf(d),
    ensures
        ({
            let s = chunk_logits(d, c.n_real as int)[0];
            &&& all_in_room(d, c.max_chunk as int, s)
            &&& s.bindings[0].extent == Extent::Range(
                ((c.n_real - 1) * HIDDEN) as u64,
                (c.n_real * HIDDEN) as u64,
            )
        }),
{
}

/// The LM head over row `r` reads that row and writes that row of the logits,
/// so no two rows of a chunk write in the same place.
pub proof fn lemma_row_logits_apart(d: ModelDesc, max_chunk: int, r: int, q: int)
    requires
        0 <= r < q < max_chunk,
        0 < d.vocab_size,
        max_chunk * d.vocab_size <= u64::MAX,
        max_chunk * HIDDEN <= u64::MAX,
    ensures
        all_in_room(d, max_chunk, row_logits(d, r)),
        all_in_room(d, max_chunk, row_logits(d, q)),
        row_logits(d, r).bindings[2].extent->1 <= row_logits(d, q).bindings[2].extent->0,
{
    let v = d.vocab_size as int;
    assert(r * v < (r + 1) * v <= q * v < (q + 1) * v <= max_chunk * v) by (nonlinear_arith)
        requires
            0 <= r,
            r + 1 <= q,
            q + 1 <= max_chunk,
            0 < v,
    ;
    assert(0 <= r * v) by (nonlinear_arith)
        requires
            0 <= r,
            0 < v,
    ;
}

/// Within a chunk, a sliding layer attends before it appends, because
/// appending would overwrite the windows of early queries; a global layer
/// appends first, so that its queries find the keys of their own chunk.
pub proof fn lemma_store_order(d: ModelDesc, i: usize, kind: LayerKind, c: ChunkShape)
    ensures
        chunk_attention(d, i, kind, c).len() == 3,
        kind == LayerKind::Sliding ==> {
            &&& chunk_attention(d, i, kind, c)[0].kernel == Kernel::PrefillSliding
            &&& outputs(chunk_attention(d, i, kind, c)[1]) == set![Buffer::Keys(i)]
            &&& outputs(chunk_attention(d, i, kind, c)[2]) == set![Buffer::Values(i)]
        },
        kind == LayerKind::Global ==> {
            &&& outputs(chunk_attention(d, i, kind, c)[0]) == set![Buffer::Keys(i)]
            &&& outputs(chunk_attention(d, i, kind, c)[1]) == set![Buffer::Values(i)]
            &&& chunk_attention(d, i, kind, c)[2].kernel == Kernel::PrefillGlobal
        },
{
}

/// The logits of any rows of a chunk need no more than its residual stream,
/// once the final norm has run over it.
pub proof fn lemma_all_logits_flow(f: Flow, d: ModelDesc, m_pad: int, start: int, len: nat)
    requires
        f.holds(Buffer::Prefill(Slot::X)),
    ensures
        ({
            let first = seq![
                norm(
                    Kernel::Rms5376,
                    Buffer::Prefill(Slot::X),
                    Buffer::OutputNorm,
                    Buffer::Prefill(Slot::Xn),
                    m_pad,
                ),
            ];
            let batch = Seq::new(len, |k: int| row_logits(d, start + k));
            f.runs(first, 0) && f.through(first, 0).runs(batch, 0)
        }),
{
    let first = seq![
        norm(
            Kernel::Rms5376,
            Buffer::Prefill(Slot::X),
            Buffer::OutputNorm,
            Buffer::Prefill(Slot::Xn),
            m_pad,
        ),
    ];
    let batch = Seq::new(len, |k: int| row_logits(d, start + k));
    assert(f.runs(first, 0) && f.through(first, 0).holds(Buffer::Prefill(Slot::Xn))) by {
        reveal_with_fuel(Flow::runs, 3);
        reveal_with_fuel(Flow::through, 3);
    }
    lemma_rows_flow(f.through(first, 0), d, start, batch, 0);
}

proof fn lemma_rows_flow(f: Flow, d: ModelDesc, start: int, batch: Seq<Step>, i: int)
    requires
        f.holds(Buffer::Prefill(Slot::Xn)),
        0 <= i <= batch.len(),
        batch == Seq::new(batch.len(), |k: int| row_logits(d, start + k)),
    ensures
        f.runs(batch, i),
    decreases batch.len() - i,
{
    if i < batch.len() {
        assert(batch[i] == row_logits(d, start + i));
        lemma_rows_flow(f.past(batch[i]), d, start, batch, i + 1);
    }
}

} // verus!
