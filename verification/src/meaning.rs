//! What the device graphs compute. Every buffer holds a term: how its value
//! comes of the residual stream that goes in and of the model's tensors. A
//! decode step, a prefill chunk and the host reference pass all lead to the
//! same terms, those of the model's formula.

use vstd::prelude::*;

use crate::forward::{
    attention_ops, closing_ops, ffn_ops, forward_ops, layer_ops, layers_ops, opening_ops, qkv_ops,
    tap_name, Conventions, Op, Tap, Value,
};
use crate::graph::{
    append, decode_attention, decode_ffn, decode_layer, decode_layers, decode_logits, decode_projections,
    head_norm, heads_turned, joined_residual, kernel_name, placed, rope_k, rope_q, splits,
    value_source, Buffer, Extent, Groups, Kernel, Push, Slot, Step, ONE_BITS,
};
use crate::model::{chunks_fit, GpuModel, GraphKey};
use crate::prefill::{
    chunk_attention, chunk_down, chunk_gate_up, chunk_layer, chunk_layers, chunk_logits,
    chunk_output, chunk_projections, lemma_segments_cover, segment_count, segment_end,
    segment_start, ChunkShape, LogitsMode,
};
use crate::shape::{LayerKind, ModelDesc};
use crate::stage::{decode_size, store_size, tap_slot, Element};
use crate::text::decimal;
use crate::weights::{Tensor, Weight};

verus! {

/// A value of the pass, row by row.
pub enum Term {
    /// Not a value of the pass.
    Junk,
    /// The residual stream that goes in.
    Input,
    /// What a store held before.
    Past,
    /// A store with rows added behind what it held.
    Grown(Box<Term>),
    /// Normalized over so many elements, with the weights of a tensor or with
    /// ones.
    Normed(Box<Term>, Option<Weight>, int),
    /// The product of a tensor and a value.
    Product(Weight, Box<Term>),
    /// Rotated to the positions of its rows, as a kind of layer does it.
    Turned(Box<Term>, LayerKind),
    /// Attention of queries over what the stores of a layer held before and
    /// new keys and values.
    Attended { layer: usize, kind: LayerKind, q: Box<Term>, k: Box<Term>, v: Box<Term> },
    /// Attention in so many parts.
    Parts(Box<Term>, u32),
    Sum(Box<Term>, Box<Term>),
    /// Times the float with these bits.
    Times(Box<Term>, u32),
    /// `gelu` of the first, times the second.
    Gated(Box<Term>, Box<Term>),
    /// Soft-capped.
    Capped(Box<Term>),
    /// One row of a value.
    Row(Box<Term>, int),
    /// The 8-bit numbers of a quantized value, and their scales.
    Quants(Box<Term>),
    Scales(Box<Term>),
}

pub open spec fn normed(x: Term, w: Weight, dim: int) -> Term {
    Term::Normed(Box::new(x), Some(w), dim)
}

pub open spec fn product(w: Weight, x: Term) -> Term {
    Term::Product(w, Box::new(x))
}

/// Multiplying by one changes nothing.
pub open spec fn times(x: Term, bits: u32) -> Term {
    if bits == 0x3f80_0000 {
        x
    } else {
        Term::Times(Box::new(x), bits)
    }
}

/// The sizes that the kernels are made for.
pub open spec fn made_for(d: ModelDesc) -> bool {
    &&& d.hidden_size == 5376
    &&& d.ffn_size == 21504
    &&& d.n_q_heads == 32
    &&& d.sliding.head_dim == 256
    &&& d.sliding.n_kv_heads == 16
    &&& d.global.head_dim == 512
    &&& d.global.n_kv_heads == 4
}

/// The queries of layer `i` for its input `x`.
pub open spec fn queries(d: ModelDesc, i: usize, kind: LayerKind, x: Term) -> Term {
    let n = normed(x, Weight::Layer(i, Tensor::AttnNorm), 5376);
    let q = product(Weight::Layer(i, Tensor::AttnQ), n);
    let dim = d.geometry(kind).head_dim as int;
    Term::Turned(Box::new(normed(q, Weight::Layer(i, Tensor::AttnQNorm), dim)), kind)
}

/// The keys of layer `i`.
pub open spec fn keys(d: ModelDesc, i: usize, kind: LayerKind, x: Term) -> Term {
    let n = normed(x, Weight::Layer(i, Tensor::AttnNorm), 5376);
    let k = product(Weight::Layer(i, Tensor::AttnK), n);
    let dim = d.geometry(kind).head_dim as int;
    Term::Turned(Box::new(normed(k, Weight::Layer(i, Tensor::AttnKNorm), dim)), kind)
}

/// The values of layer `i`: of their own projection in a sliding layer, of the
/// keys' in a global one; normalized without weights, and never rotated.
pub open spec fn values(d: ModelDesc, i: usize, kind: LayerKind, x: Term) -> Term {
    let n = normed(x, Weight::Layer(i, Tensor::AttnNorm), 5376);
    let v = match kind {
        LayerKind::Sliding => product(Weight::Layer(i, Tensor::AttnV), n),
        LayerKind::Global => product(Weight::Layer(i, Tensor::AttnK), n),
    };
    Term::Normed(Box::new(v), None, d.geometry(kind).head_dim as int)
}

/// The attention of layer `i`.
pub open spec fn attended(d: ModelDesc, i: usize, kind: LayerKind, x: Term) -> Term {
    Term::Attended {
        layer: i,
        kind,
        q: Box::new(queries(d, i, kind, x)),
        k: Box::new(keys(d, i, kind, x)),
        v: Box::new(values(d, i, kind, x)),
    }
}

/// The residual stream behind the attention of layer `i`.
pub open spec fn behind_attention(d: ModelDesc, i: usize, kind: LayerKind, x: Term) -> Term {
    let o = product(Weight::Layer(i, Tensor::AttnOutput), attended(d, i, kind, x));
    Term::Sum(Box::new(x), Box::new(normed(o, Weight::Layer(i, Tensor::PostAttentionNorm), 5376)))
}

/// The gated product of layer `i` over `h`: its first factor goes through `gelu`.
pub open spec fn gated(i: usize, h: Term) -> Term {
    let f = normed(h, Weight::Layer(i, Tensor::FfnNorm), 5376);
    Term::Gated(
        Box::new(product(Weight::Layer(i, Tensor::FfnGate), f)),
        Box::new(product(Weight::Layer(i, Tensor::FfnUp), f)),
    )
}

/// The residual stream behind the feed-forward block of layer `i`.
pub open spec fn behind_ffn(i: usize, h: Term, scale: u32) -> Term {
    let f = product(Weight::Layer(i, Tensor::FfnDown), gated(i, h));
    times(
        Term::Sum(Box::new(h), Box::new(normed(f, Weight::Layer(i, Tensor::PostFfwNorm), 5376))),
        scale,
    )
}

/// What layer `i` makes of the residual stream.
pub open spec fn layer_term(d: ModelDesc, i: usize, scale: u32, x: Term) -> Term {
    let kind = d.layer_kinds@[i as int];
    behind_ffn(i, behind_attention(d, i, kind, x), scale)
}

/// What the layers `from..to` make of the residual stream.
pub open spec fn layers_term(d: ModelDesc, scales: Seq<u32>, from: int, to: int, x: Term) -> Term
    decreases to - from,
{
    if to <= from {
        x
    } else {
        layer_term(d, (to - 1) as usize, scales[to - 1], layers_term(d, scales, from, to - 1, x))
    }
}

/// The logits of a residual stream.
pub open spec fn logits_term(x: Term) -> Term {
    Term::Capped(Box::new(product(Weight::TokenEmbd, normed(x, Weight::OutputNorm, 5376))))
}

/// Inputs and outputs of a matrix of a layer.
pub open spec fn matrix_shape(d: ModelDesc, kind: LayerKind, t: Tensor) -> (int, int) {
    let g = d.geometry(kind);
    let (q, kv) = (d.n_q_heads * g.head_dim, g.n_kv_heads * g.head_dim);
    let (h, f) = (d.hidden_size as int, d.ffn_size as int);
    match t {
        Tensor::AttnQ => (h, q),
        Tensor::AttnK | Tensor::AttnV => (h, kv),
        Tensor::AttnOutput => (q, h),
        Tensor::FfnGate | Tensor::FfnUp => (h, f),
        Tensor::FfnDown => (f, h),
        _ => (0, 0),
    }
}

/// Inputs of the products that a kernel is made for, and outputs where it is
/// made for so many.
pub open spec fn kernel_shape(k: Kernel) -> (int, int) {
    match k {
        Kernel::Gemv5376 => (5376, 0),
        Kernel::Gemv8192 => (8192, 0),
        Kernel::Gemv16384 => (16384, 0),
        Kernel::Gemv21504 => (21504, 0),
        Kernel::GemmQSliding => (5376, 8192),
        Kernel::GemmQGlobal => (5376, 16384),
        Kernel::GemmKvSliding => (5376, 4096),
        Kernel::GemmKvGlobal => (5376, 2048),
        Kernel::GemmOSliding => (8192, 5376),
        Kernel::GemmOGlobal => (16384, 5376),
        Kernel::GemmUp | Kernel::GemmUpI8 => (5376, 21504),
        Kernel::GemmDown | Kernel::GemmDownI8 => (21504, 5376),
        _ => (0, 0),
    }
}

/// The pass that a graph runs: `rows` rows in the buffers, the first `real` of
/// them tokens, in buffers made for `room` rows.
pub struct Pass {
    pub d: ModelDesc,
    pub chunk: bool,
    pub rows: int,
    pub real: int,
    pub room: int,
}

/// What the buffers hold.
pub type Memory = Map<Buffer, Term>;

pub open spec fn buffer(s: Step, i: int) -> Buffer {
    s.bindings[i].buffer
}

/// The step binds so many buffers, each as a whole.
pub open spec fn whole(s: Step, n: int) -> bool {
    s.bindings.len() == n && forall|i: int| 0 <= i < n ==> (#[trigger] s.bindings[i]).extent
        == Extent::Whole
}

/// The tensor behind a buffer.
pub open spec fn tensor_of(b: Buffer) -> Option<Weight> {
    match b {
        Buffer::Weight(i, t) => Some(Weight::Layer(i, t)),
        Buffer::OutputNorm => Some(Weight::OutputNorm),
        Buffer::TokenEmbd => Some(Weight::TokenEmbd),
        _ => None,
    }
}

/// The layer of a store.
pub open spec fn layer_of(b: Buffer) -> usize {
    match b {
        Buffer::Keys(i) => i,
        Buffer::Values(i) => i,
        _ => usize::MAX,
    }
}

/// The activation slot of a buffer.
pub open spec fn slot_of(b: Buffer) -> Option<Slot> {
    match b {
        Buffer::Decode(s) => Some(s),
        Buffer::Prefill(s) => Some(s),
        _ => None,
    }
}

impl Pass {
    /// Heads in a row of a slot that holds heads of this kind.
    pub open spec fn heads(self, s: Option<Slot>, kind: LayerKind) -> int {
        match s {
            Some(Slot::Q(k)) => if k == kind {
                32
            } else {
                0
            },
            Some(Slot::K(k)) | Some(Slot::V(k)) => if k == kind {
                self.d.geometry(kind).n_kv_heads as int
            } else {
                0
            },
            _ => 0,
        }
    }

    pub open spec fn layer_kind(self, i: usize) -> LayerKind {
        self.d.layer_kinds@[i as int]
    }

    /// What a normalization of rows gives: of all of them, or of one.
    pub open spec fn row_norm(self, s: Step, mem: Memory) -> Term {
        let w = tensor_of(buffer(s, 1));
        let x = mem[buffer(s, 0)];
        if s.bindings.len() == 3 && w is Some && s.push == Push::Nothing && s.bindings[1].extent
            == Extent::Whole && s.bindings[2].extent == Extent::Whole {
            match s.bindings[0].extent {
                Extent::Whole => if s.groups == Groups::Exact(self.rows as u32, 1, 1) {
                    Term::Normed(Box::new(x), w, 5376)
                } else {
                    Term::Junk
                },
                Extent::Range(from, to) => if s.groups == Groups::Exact(1, 1, 1) && to == from
                    + 5376 && from as int % 5376 == 0 {
                    Term::Normed(Box::new(Term::Row(Box::new(x), from as int / 5376)), w, 5376)
                } else {
                    Term::Junk
                },
            }
        } else {
            Term::Junk
        }
    }

    /// What a normalization of heads gives.
    pub open spec fn head_norm(self, s: Step, mem: Memory, kind: LayerKind) -> Term {
        let w = tensor_of(buffer(s, 1));
        let heads = self.heads(slot_of(buffer(s, 2)), kind);
        if whole(s, 3) && (w is Some || buffer(s, 1) == Buffer::NormOnes) && s.push == Push::Nothing
            && s.groups == Groups::Exact((self.rows * heads) as u32, 1, 1) && heads > 0 {
            Term::Normed(
                Box::new(mem[buffer(s, 0)]),
                w,
                match kind {
                    LayerKind::Sliding => 256,
                    LayerKind::Global => 512,
                },
            )
        } else {
            Term::Junk
        }
    }

    /// What a rotation gives: all pairs of a sliding head turn, and the first
    /// quarter of those of a global one.
    pub open spec fn turn(self, s: Step, mem: Memory, kind: LayerKind, query: bool) -> Term {
        let heads = self.heads(slot_of(buffer(s, 0)), kind);
        let pairs: int = match kind {
            LayerKind::Sliding => 128,
            LayerKind::Global => 64,
        };
        if whole(s, 2) && buffer(s, 1) == placed(self.chunk, Slot::CosSin(kind)) && (slot_of(
            buffer(s, 0),
        ) == Some(Slot::Q(kind))) == query && heads > 0 && s.push == Push::Nothing && s.groups
            == Groups::Covering((self.rows * heads * pairs) as u64) {
            Term::Turned(Box::new(mem[buffer(s, 0)]), kind)
        } else {
            Term::Junk
        }
    }

    /// Whether a kernel and its grid are right for the product with a tensor.
    pub open spec fn fits(self, s: Step, block: int) -> bool {
        match tensor_of(buffer(s, 0)) {
            Some(Weight::Layer(i, t)) => {
                let (n_in, n_out) = matrix_shape(self.d, self.layer_kind(i), t);
                let (k_in, k_out) = kernel_shape(s.kernel);
                &&& n_in == k_in
                &&& s.push == Push::Nothing
                &&& if block == 1 {
                    s.groups == Groups::Exact(n_out as u32, 1, 1) && self.rows == 1
                } else {
                    n_out == k_out && s.groups == Groups::Exact(
                        (n_out / block) as u32,
                        (self.rows / block) as u32,
                        1,
                    )
                }
            },
            _ => false,
        }
    }

    /// What a matrix product gives.
    pub open spec fn matrix(self, s: Step, mem: Memory, block: int) -> Term {
        if whole(s, 3) && self.fits(s, block) {
            product(tensor_of(buffer(s, 0))->0, mem[buffer(s, 1)])
        } else {
            Term::Junk
        }
    }

    /// What a product with quantized values gives: that with the values, where
    /// numbers and scales are of the same ones.
    pub open spec fn matrix_q8(self, s: Step, mem: Memory) -> Term {
        match (mem[buffer(s, 1)], mem[buffer(s, 2)]) {
            (Term::Quants(x), Term::Scales(y)) => if whole(s, 4) && self.fits(s, 32) && x == y {
                product(tensor_of(buffer(s, 0))->0, *x)
            } else {
                Term::Junk
            },
            _ => Term::Junk,
        }
    }

    /// What a store holds once the real rows are appended.
    pub open spec fn append(self, s: Step, mem: Memory, kind: LayerKind) -> Term {
        let g = self.d.geometry(kind);
        let len = (self.real * (g.n_kv_heads * g.head_dim)) as u64;
        let source = slot_of(buffer(s, 0));
        let right = match buffer(s, 1) {
            Buffer::Keys(i) => self.layer_kind(i) == kind && source == Some(Slot::K(kind)),
            Buffer::Values(i) => self.layer_kind(i) == kind && source == Some(Slot::V(kind)),
            _ => false,
        };
        let bound_right = s.bindings.len() == 3 && s.bindings[1].extent == Extent::Whole && (
        s.bindings[0].extent == (if self.chunk {
            Extent::Range(0, len)
        } else {
            Extent::Whole
        })) && buffer(s, 2) == Buffer::Step;
        if right && bound_right && s.push == Push::Nothing && s.groups == Groups::Covering(len)
            && mem[buffer(s, 1)] == Term::Past {
            Term::Grown(Box::new(mem[buffer(s, 0)]))
        } else {
            Term::Junk
        }
    }

    /// What attention over grown stores gives.
    pub open spec fn attend(self, s: Step, mem: Memory, kind: LayerKind) -> Term {
        let i = layer_of(buffer(s, 1));
        match (mem[buffer(s, 1)], mem[buffer(s, 2)]) {
            (Term::Grown(k), Term::Grown(v)) => if whole(s, 5) && buffer(s, 1) == Buffer::Keys(i)
                && buffer(s, 2) == Buffer::Values(i) && buffer(s, 4) == Buffer::Step
                && self.layer_kind(i) == kind {
                Term::Attended { layer: i, kind, q: Box::new(mem[buffer(s, 0)]), k, v }
            } else {
                Term::Junk
            },
            _ => Term::Junk,
        }
    }

    /// The grid and the factor of attention: a row of groups for each head of
    /// keys; the logits are multiplied by one.
    pub open spec fn attention_grid(self, s: Step, kind: LayerKind, y: int) -> bool {
        s.groups == Groups::Exact(self.d.geometry(kind).n_kv_heads as u32, y as u32, 1)
    }

    /// What attention in parts gives.
    pub open spec fn attend_parts(self, s: Step, mem: Memory, kind: LayerKind) -> Term {
        match s.push {
            Push::Words(n, factor) => if n > 0 && factor == 0x3f80_0000 && self.attention_grid(
                s,
                kind,
                n as int,
            ) && self.rows == 1 {
                Term::Parts(Box::new(self.attend(s, mem, kind)), n)
            } else {
                Term::Junk
            },
            _ => Term::Junk,
        }
    }

    /// What a sliding layer's attention over the stores as they were and the
    /// chunk's own keys and values gives.
    pub open spec fn attend_ring(self, s: Step, mem: Memory) -> Term {
        let i = layer_of(buffer(s, 1));
        let kind = LayerKind::Sliding;
        if whole(s, 7) && buffer(s, 1) == Buffer::Keys(i) && buffer(s, 2) == Buffer::Values(i)
            && mem[buffer(s, 1)] == Term::Past && mem[buffer(s, 2)] == Term::Past && buffer(s, 6)
            == Buffer::Step && self.layer_kind(i) == kind && s.push == Push::Word(0x3f80_0000)
            && self.attention_grid(s, kind, self.rows) {
            Term::Attended {
                layer: i,
                kind,
                q: Box::new(mem[buffer(s, 0)]),
                k: Box::new(mem[buffer(s, 3)]),
                v: Box::new(mem[buffer(s, 4)]),
            }
        } else {
            Term::Junk
        }
    }

    /// Where a step writes its result.
    pub open spec fn target(self, s: Step) -> Buffer {
        match s.kernel {
            Kernel::RopeSlidingQ
            | Kernel::RopeSlidingK
            | Kernel::RopeGlobalQ
            | Kernel::RopeGlobalK => buffer(s, 0),
            Kernel::AppendSliding
            | Kernel::AppendGlobal
            | Kernel::Reduce256
            | Kernel::Reduce512 => buffer(s, 1),
            Kernel::AttnSliding
            | Kernel::AttnGlobal
            | Kernel::PrefillGlobal
            | Kernel::GemmUpI8
            | Kernel::GemmDownI8 => buffer(s, 3),
            Kernel::PrefillSliding => buffer(s, 5),
            _ => buffer(s, 2),
        }
    }

    /// What a step writes. A step that is not put together as its kernel
    /// needs it writes nothing of use.
    pub open spec fn result(self, s: Step, mem: Memory) -> Term {
        match s.kernel {
            Kernel::Rms5376 => self.row_norm(s, mem),
            Kernel::Rms256 => self.head_norm(s, mem, LayerKind::Sliding),
            Kernel::Rms512 => self.head_norm(s, mem, LayerKind::Global),
            Kernel::RopeSlidingQ => self.turn(s, mem, LayerKind::Sliding, true),
            Kernel::RopeSlidingK => self.turn(s, mem, LayerKind::Sliding, false),
            Kernel::RopeGlobalQ => self.turn(s, mem, LayerKind::Global, true),
            Kernel::RopeGlobalK => self.turn(s, mem, LayerKind::Global, false),
            Kernel::Gemv5376 | Kernel::Gemv8192 | Kernel::Gemv16384 | Kernel::Gemv21504 =>
                self.matrix(s, mem, 1),
            Kernel::GemmQSliding
            | Kernel::GemmQGlobal
            | Kernel::GemmKvSliding
            | Kernel::GemmKvGlobal
            | Kernel::GemmOSliding
            | Kernel::GemmOGlobal
            | Kernel::GemmUp
            | Kernel::GemmDown => self.matrix(s, mem, 64),
            Kernel::GemmUpI8 | Kernel::GemmDownI8 => self.matrix_q8(s, mem),
            Kernel::AppendSliding => self.append(s, mem, LayerKind::Sliding),
            Kernel::AppendGlobal => self.append(s, mem, LayerKind::Global),
            Kernel::AttnSliding => self.attend_parts(s, mem, LayerKind::Sliding),
            Kernel::AttnGlobal => self.attend_parts(s, mem, LayerKind::Global),
            Kernel::PrefillSliding => self.attend_ring(s, mem),
            Kernel::PrefillGlobal => if s.push == Push::Word(0x3f80_0000) && self.attention_grid(
                s,
                LayerKind::Global,
                self.rows,
            ) {
                self.attend(s, mem, LayerKind::Global)
            } else {
                Term::Junk
            },
            Kernel::Reduce256 | Kernel::Reduce512 => match (mem[buffer(s, 0)], s.push) {
                (Term::Parts(x, n), Push::Word(m)) => if n == m && whole(s, 2) && s.groups
                    == Groups::Exact(32, 1, 1) && (match *x {
                    Term::Attended { kind, .. } => (kind == LayerKind::Sliding) == (s.kernel
                        == Kernel::Reduce256),
                    _ => false,
                }) {
                    *x
                } else {
                    Term::Junk
                },
                _ => Term::Junk,
            },
            Kernel::Geglu => if whole(s, 3) && s.push == Push::Nothing && s.groups
                == Groups::Covering((self.room * 21504) as u64) {
                Term::Gated(Box::new(mem[buffer(s, 0)]), Box::new(mem[buffer(s, 1)]))
            } else {
                Term::Junk
            },
            Kernel::AddScaled => match s.push {
                Push::Word(bits) => if whole(s, 3) && s.groups == Groups::Covering(
                    (self.room * 5376) as u64,
                ) {
                    times(
                        Term::Sum(Box::new(mem[buffer(s, 0)]), Box::new(mem[buffer(s, 1)])),
                        bits,
                    )
                } else {
                    Term::Junk
                },
                _ => Term::Junk,
            },
            Kernel::Logits => if whole(s, 3) && buffer(s, 0) == Buffer::TokenEmbd && s.push
                == Push::Nothing && s.groups == Groups::Exact(self.d.vocab_size as u32, 1, 1) {
                Term::Capped(Box::new(product(Weight::TokenEmbd, mem[buffer(s, 1)])))
            } else {
                Term::Junk
            },
            _ => Term::Junk,
        }
    }

    /// What the buffers hold behind a step.
    pub open spec fn past(self, s: Step, mem: Memory) -> Memory {
        match s.kernel {
            Kernel::Touch => mem,
            Kernel::QuantQ8 => {
                let width: int = match slot_of(buffer(s, 0)) {
                    Some(Slot::Fin) => 5376,
                    Some(Slot::Gu) => 21504,
                    _ => 0,
                };
                let good = whole(s, 3) && s.push == Push::Nothing && width > 0 && s.groups
                    == Groups::Covering((self.rows * width / 32) as u64);
                let x = mem[buffer(s, 0)];
                if good {
                    mem.insert(buffer(s, 1), Term::Scales(Box::new(x))).insert(
                        buffer(s, 2),
                        Term::Quants(Box::new(x)),
                    )
                } else {
                    mem.insert(buffer(s, 1), Term::Junk).insert(buffer(s, 2), Term::Junk)
                }
            },
            _ => mem.insert(self.target(s), self.result(s, mem)),
        }
    }

    /// What the buffers hold behind the steps from `i` on.
    pub open spec fn run(self, list: Seq<Step>, i: int, mem: Memory) -> Memory
        decreases list.len() - i,
    {
        if i < 0 || i >= list.len() {
            mem
        } else {
            self.run(list, i + 1, self.past(list[i], mem))
        }
    }
}

proof fn lemma_behind(p: Pass, a: Seq<Step>, b: Seq<Step>, i: int, mem: Memory)
    requires
        0 <= i <= b.len(),
    ensures
        p.run(a + b, a.len() + i, mem) == p.run(b, i, mem),
    decreases b.len() - i,
{
    if i < b.len() {
        assert((a + b)[a.len() + i] == b[i]);
        lemma_behind(p, a, b, i + 1, p.past(b[i], mem));
    }
}

/// One list after another.
proof fn lemma_joined(p: Pass, a: Seq<Step>, b: Seq<Step>, i: int, mem: Memory)
    requires
        0 <= i <= a.len(),
    ensures
        p.run(a + b, i, mem) == p.run(b, 0, p.run(a, i, mem)),
    decreases a.len() - i,
{
    if i < a.len() {
        assert((a + b)[i] == a[i]);
        lemma_joined(p, a, b, i + 1, p.past(a[i], mem));
    } else {
        lemma_behind(p, a, b, 0, mem);
    }
}

/// The pass of one token.
pub open spec fn token_pass(d: ModelDesc) -> Pass {
    Pass { d, chunk: false, rows: 1, real: 1, room: 1 }
}

/// The pass of a chunk.
pub open spec fn chunk_pass(d: ModelDesc, c: ChunkShape) -> Pass {
    Pass {
        d,
        chunk: true,
        rows: c.m_pad as int,
        real: c.n_real as int,
        room: c.max_chunk as int,
    }
}

/// The stores of the layers from `from` on are as they were.
pub open spec fn stores_from(mem: Memory, from: int) -> bool {
    forall|j: usize|
        from <= j ==> #[trigger] mem[Buffer::Keys(j)] == Term::Past && mem[Buffer::Values(j)]
            == Term::Past
}

#[verifier::rlimit(40)]
proof fn lemma_decode_projections(d: ModelDesc, i: usize, kind: LayerKind, mem: Memory)
    requires
        made_for(d),
        d.layer_kinds@[i as int] == kind,
    ensures
        ({
            let x = mem[Buffer::Decode(Slot::X)];
            let n = normed(x, Weight::Layer(i, Tensor::AttnNorm), 5376);
            let end = token_pass(d).run(decode_projections(d, i, kind), 0, mem);
            &&& end[Buffer::Decode(Slot::X)] == x
            &&& end[Buffer::Decode(Slot::QRaw(kind))] == product(Weight::Layer(i, Tensor::AttnQ), n)
            &&& end[Buffer::Decode(Slot::Kp(kind))] == product(Weight::Layer(i, Tensor::AttnK), n)
            &&& end[Buffer::Decode(value_source(kind))] == (match kind {
                LayerKind::Sliding => product(Weight::Layer(i, Tensor::AttnV), n),
                LayerKind::Global => product(Weight::Layer(i, Tensor::AttnK), n),
            })
            &&& forall|j: usize| #[trigger] end[Buffer::Keys(j)] == mem[Buffer::Keys(j)]
            &&& forall|j: usize| #[trigger] end[Buffer::Values(j)] == mem[Buffer::Values(j)]
        }),
{
    reveal_with_fuel(Pass::run, 6);
}

/// Every store holds what it held.
spec fn same_stores(a: Memory, b: Memory) -> bool {
    &&& forall|j: usize| #[trigger] b[Buffer::Keys(j)] == a[Buffer::Keys(j)]
    &&& forall|j: usize| #[trigger] b[Buffer::Values(j)] == a[Buffer::Values(j)]
}

/// Every store but that of layer `i` holds what it held, and that of layer `i`
/// has the keys and values of `x` added.
pub open spec fn stores_grown(a: Memory, b: Memory, d: ModelDesc, i: usize, x: Term) -> bool {
    let kind = d.layer_kinds@[i as int];
    &&& forall|j: usize| j != i ==> #[trigger] b[Buffer::Keys(j)] == a[Buffer::Keys(j)]
    &&& forall|j: usize| j != i ==> #[trigger] b[Buffer::Values(j)] == a[Buffer::Values(j)]
    &&& b[Buffer::Keys(i)] == Term::Grown(Box::new(keys(d, i, kind, x)))
    &&& b[Buffer::Values(i)] == Term::Grown(Box::new(values(d, i, kind, x)))
}

/// The slots that a tap can name, but for the residual stream.
spec fn tapped_slots(kind: LayerKind) -> Seq<Slot> {
    seq![
        Slot::Xn,
        Slot::Q(kind),
        Slot::K(kind),
        Slot::V(kind),
        Slot::Attn(kind),
        Slot::O,
        Slot::On,
        Slot::X2,
        Slot::Fin,
    ]
}

/// The first `n` of them hold what they held.
spec fn same_slots(a: Memory, b: Memory, kind: LayerKind, n: int) -> bool {
    forall|k: int|
        0 <= k < n ==> #[trigger] b[Buffer::Prefill(tapped_slots(kind)[k])]
            == a[Buffer::Prefill(tapped_slots(kind)[k])]
}

#[verifier::rlimit(40)]
proof fn lemma_heads(p: Pass, i: usize, kind: LayerKind, mem: Memory)
    requires
        made_for(p.d),
    ensures
        ({
            let q = mem[placed(p.chunk, Slot::QRaw(kind))];
            let k = mem[placed(p.chunk, Slot::Kp(kind))];
            let v = mem[placed(p.chunk, value_source(kind))];
            let dim = p.d.geometry(kind).head_dim as int;
            let end = p.run(heads_turned(p.d, i, kind, p.rows, p.chunk), 0, mem);
            &&& end[placed(p.chunk, Slot::X)] == mem[placed(p.chunk, Slot::X)]
            &&& end[placed(p.chunk, Slot::Q(kind))] == Term::Turned(
                Box::new(normed(q, Weight::Layer(i, Tensor::AttnQNorm), dim)),
                kind,
            )
            &&& end[placed(p.chunk, Slot::K(kind))] == Term::Turned(
                Box::new(normed(k, Weight::Layer(i, Tensor::AttnKNorm), dim)),
                kind,
            )
            &&& end[placed(p.chunk, Slot::V(kind))] == Term::Normed(Box::new(v), None, dim)
            &&& same_stores(mem, end)
            &&& end[placed(p.chunk, Slot::Xn)] == mem[placed(p.chunk, Slot::Xn)]
        }),
{
    reveal_with_fuel(Pass::run, 7);
}

#[verifier::rlimit(40)]
proof fn lemma_decode_attention(d: ModelDesc, i: usize, kind: LayerKind, mem: Memory)
    requires
        made_for(d),
        d.layer_kinds@[i as int] == kind,
        mem[Buffer::Keys(i)] == Term::Past,
        mem[Buffer::Values(i)] == Term::Past,
    ensures
        ({
            let k = mem[Buffer::Decode(Slot::K(kind))];
            let v = mem[Buffer::Decode(Slot::V(kind))];
            let a = Term::Attended {
                layer: i,
                kind,
                q: Box::new(mem[Buffer::Decode(Slot::Q(kind))]),
                k: Box::new(k),
                v: Box::new(v),
            };
            let end = token_pass(d).run(decode_attention(d, i, kind), 0, mem);
            &&& end[Buffer::Decode(Slot::X)] == mem[Buffer::Decode(Slot::X)]
            &&& end[Buffer::Decode(Slot::O)] == product(Weight::Layer(i, Tensor::AttnOutput), a)
            &&& end[Buffer::Keys(i)] == Term::Grown(Box::new(k))
            &&& end[Buffer::Values(i)] == Term::Grown(Box::new(v))
            &&& forall|j: usize| j != i ==> #[trigger] end[Buffer::Keys(j)] == mem[Buffer::Keys(j)]
            &&& forall|j: usize|
                j != i ==> #[trigger] end[Buffer::Values(j)] == mem[Buffer::Values(j)]
        }),
{
    reveal_with_fuel(Pass::run, 7);
}

proof fn lemma_residual(
    p: Pass,
    i: usize,
    result: Slot,
    weight: Tensor,
    between: Slot,
    residual: Slot,
    sum: Slot,
    scale: u32,
    len: int,
    mem: Memory,
)
    requires
        between != residual,
        len == p.room * 5376,
    ensures
        ({
            let end = p.run(
                joined_residual(
                    i,
                    p.rows,
                    p.chunk,
                    result,
                    weight,
                    between,
                    residual,
                    sum,
                    scale,
                    len,
                ),
                0,
                mem,
            );
            &&& end[placed(p.chunk, sum)] == times(
                Term::Sum(
                    Box::new(mem[placed(p.chunk, residual)]),
                    Box::new(normed(mem[placed(p.chunk, result)], Weight::Layer(i, weight), 5376)),
                ),
                scale,
            )
            &&& between != sum ==> end[placed(p.chunk, between)] == normed(
                mem[placed(p.chunk, result)],
                Weight::Layer(i, weight),
                5376,
            )
            &&& forall|b: Buffer|
                b != placed(p.chunk, between) && b != placed(p.chunk, sum) ==> #[trigger] end[b]
                    == mem[b]
        }),
{
    reveal_with_fuel(Pass::run, 4);
}

#[verifier::rlimit(40)]
proof fn lemma_decode_ffn(d: ModelDesc, i: usize, mem: Memory)
    requires
        made_for(d),
    ensures
        ({
            let h = mem[Buffer::Decode(Slot::X2)];
            let end = token_pass(d).run(decode_ffn(i), 0, mem);
            &&& end[Buffer::Decode(Slot::X2)] == h
            &&& end[Buffer::Decode(Slot::F)] == product(
                Weight::Layer(i, Tensor::FfnDown),
                gated(i, h),
            )
            &&& same_stores(mem, end)
        }),
{
    reveal_with_fuel(Pass::run, 7);
}

/// The steps of a layer for one token compute the layer: the residual stream
/// becomes what the formula makes of it, and the token's keys and values are
/// added to the stores.
#[verifier::rlimit(40)]
pub proof fn lemma_decode_layer(d: ModelDesc, i: usize, scale: u32, mem: Memory)
    requires
        made_for(d),
        mem[Buffer::Keys(i)] == Term::Past,
        mem[Buffer::Values(i)] == Term::Past,
    ensures
        ({
            let x = mem[Buffer::Decode(Slot::X)];
            let end = token_pass(d).run(decode_layer(d, i, scale), 0, mem);
            &&& end[Buffer::Decode(Slot::X)] == layer_term(d, i, scale, x)
            &&& stores_grown(mem, end, d, i, x)
        }),
{
    let p = token_pass(d);
    let kind = d.layer_kinds@[i as int];
    let a = decode_projections(d, i, kind);
    let b = heads_turned(d, i, kind, 1, false);
    let c = decode_attention(d, i, kind);
    let e = joined_residual(
        i,
        1,
        false,
        Slot::O,
        Tensor::PostAttentionNorm,
        Slot::On,
        Slot::X,
        Slot::X2,
        ONE_BITS,
        5376,
    );
    let f = decode_ffn(i);
    let g = joined_residual(
        i,
        1,
        false,
        Slot::F,
        Tensor::PostFfwNorm,
        Slot::Fn2,
        Slot::X2,
        Slot::X,
        scale,
        5376,
    );
    lemma_joined(p, a, b, 0, mem);
    lemma_joined(p, a + b, c, 0, mem);
    lemma_joined(p, a + b + c, e, 0, mem);
    lemma_joined(p, a + b + c + e, f, 0, mem);
    lemma_joined(p, a + b + c + e + f, g, 0, mem);
    let m1 = p.run(a, 0, mem);
    lemma_decode_projections(d, i, kind, mem);
    let m2 = p.run(b, 0, m1);
    lemma_heads(p, i, kind, m1);
    let m3 = p.run(c, 0, m2);
    lemma_decode_attention(d, i, kind, m2);
    let m4 = p.run(e, 0, m3);
    lemma_residual(
        p,
        i,
        Slot::O,
        Tensor::PostAttentionNorm,
        Slot::On,
        Slot::X,
        Slot::X2,
        ONE_BITS,
        5376,
        m3,
    );
    let m5 = p.run(f, 0, m4);
    lemma_decode_ffn(d, i, m4);
    lemma_residual(
        p,
        i,
        Slot::F,
        Tensor::PostFfwNorm,
        Slot::Fn2,
        Slot::X2,
        Slot::X,
        scale,
        5376,
        m5,
    );
    assert(decode_layer(d, i, scale) == a + b + c + e + f + g);
}

/// The layers `from..to` of a decode step compute the layers of the formula,
/// and each adds to its stores the keys and values of its own input.
pub proof fn lemma_decode_layers(d: ModelDesc, scales: Seq<u32>, from: int, to: int, mem: Memory)
    requires
        made_for(d),
        0 <= from <= to <= usize::MAX,
        stores_from(mem, from),
    ensures
        ({
            let x = mem[Buffer::Decode(Slot::X)];
            let end = token_pass(d).run(decode_layers(d, scales, from, to), 0, mem);
            &&& end[Buffer::Decode(Slot::X)] == layers_term(d, scales, from, to, x)
            &&& stores_from(end, to)
            &&& stores_added(end, d, scales, from, to, x)
            &&& stores_kept(mem, end, from)
        }),
    decreases to - from,
{
    let p = token_pass(d);
    if from < to {
        let x = mem[Buffer::Decode(Slot::X)];
        let before = decode_layers(d, scales, from, to - 1);
        let last = decode_layer(d, (to - 1) as usize, scales[to - 1]);
        lemma_decode_layers(d, scales, from, to - 1, mem);
        lemma_joined(p, before, last, 0, mem);
        let mid = p.run(before, 0, mem);
        assert(mid[Buffer::Keys((to - 1) as usize)] == Term::Past);
        lemma_decode_layer(d, (to - 1) as usize, scales[to - 1], mid);
    }
}

/// The stores of the layers before `from` hold what they held.
pub open spec fn stores_kept(a: Memory, b: Memory, from: int) -> bool {
    &&& forall|j: usize| j < from ==> #[trigger] b[Buffer::Keys(j)] == a[Buffer::Keys(j)]
    &&& forall|j: usize| j < from ==> #[trigger] b[Buffer::Values(j)] == a[Buffer::Values(j)]
}

/// The stores of the layers `from..to` have the keys and values of those
/// layers' inputs added.
pub open spec fn stores_added(
    mem: Memory,
    d: ModelDesc,
    scales: Seq<u32>,
    from: int,
    to: int,
    x: Term,
) -> bool {
    forall|j: usize|
        from <= j < to ==> {
            let kind = d.layer_kinds@[j as int];
            let y = layers_term(d, scales, from, j as int, x);
            &&& #[trigger] mem[Buffer::Keys(j)] == Term::Grown(Box::new(keys(d, j, kind, y)))
            &&& mem[Buffer::Values(j)] == Term::Grown(Box::new(values(d, j, kind, y)))
        }
}

/// The end of a decode step computes the logits of the residual stream.
pub proof fn lemma_decode_logits(d: ModelDesc, mem: Memory)
    ensures
        token_pass(d).run(decode_logits(d), 0, mem)[Buffer::Decode(Slot::Logits)] == logits_term(
            mem[Buffer::Decode(Slot::X)],
        ),
{
    reveal_with_fuel(Pass::run, 4);
}

#[verifier::rlimit(40)]
proof fn lemma_chunk_projections(
    d: ModelDesc,
    i: usize,
    kind: LayerKind,
    c: ChunkShape,
    mem: Memory,
)
    requires
        made_for(d),
        d.layer_kinds@[i as int] == kind,
    ensures
        ({
            let x = mem[Buffer::Prefill(Slot::X)];
            let n = normed(x, Weight::Layer(i, Tensor::AttnNorm), 5376);
            let end = chunk_pass(d, c).run(chunk_projections(d, i, kind, c), 0, mem);
            &&& end[Buffer::Prefill(Slot::X)] == x
            &&& end[Buffer::Prefill(Slot::Xn)] == n
            &&& end[Buffer::Prefill(Slot::QRaw(kind))] == product(
                Weight::Layer(i, Tensor::AttnQ),
                n,
            )
            &&& end[Buffer::Prefill(Slot::Kp(kind))] == product(Weight::Layer(i, Tensor::AttnK), n)
            &&& end[Buffer::Prefill(value_source(kind))] == (match kind {
                LayerKind::Sliding => product(Weight::Layer(i, Tensor::AttnV), n),
                LayerKind::Global => product(Weight::Layer(i, Tensor::AttnK), n),
            })
            &&& same_stores(mem, end)
        }),
{
    reveal_with_fuel(Pass::run, 7);
}

#[verifier::rlimit(40)]
proof fn lemma_chunk_attention(d: ModelDesc, i: usize, kind: LayerKind, c: ChunkShape, mem: Memory)
    requires
        made_for(d),
        d.layer_kinds@[i as int] == kind,
        mem[Buffer::Keys(i)] == Term::Past,
        mem[Buffer::Values(i)] == Term::Past,
    ensures
        ({
            let k = mem[Buffer::Prefill(Slot::K(kind))];
            let v = mem[Buffer::Prefill(Slot::V(kind))];
            let end = chunk_pass(d, c).run(chunk_attention(d, i, kind, c), 0, mem);
            &&& end[Buffer::Prefill(Slot::X)] == mem[Buffer::Prefill(Slot::X)]
            &&& same_slots(mem, end, kind, 4)
            &&& end[Buffer::Prefill(Slot::Attn(kind))] == (Term::Attended {
                layer: i,
                kind,
                q: Box::new(mem[Buffer::Prefill(Slot::Q(kind))]),
                k: Box::new(k),
                v: Box::new(v),
            })
            &&& end[Buffer::Keys(i)] == Term::Grown(Box::new(k))
            &&& end[Buffer::Values(i)] == Term::Grown(Box::new(v))
            &&& forall|j: usize| j != i ==> #[trigger] end[Buffer::Keys(j)] == mem[Buffer::Keys(j)]
            &&& forall|j: usize|
                j != i ==> #[trigger] end[Buffer::Values(j)] == mem[Buffer::Values(j)]
        }),
{
    reveal_with_fuel(Pass::run, 5);
}

proof fn lemma_chunk_output(d: ModelDesc, i: usize, kind: LayerKind, c: ChunkShape, mem: Memory)
    requires
        made_for(d),
        d.layer_kinds@[i as int] == kind,
    ensures
        ({
            let end = chunk_pass(d, c).run(chunk_output(i, kind, c), 0, mem);
            &&& end[Buffer::Prefill(Slot::X)] == mem[Buffer::Prefill(Slot::X)]
            &&& same_slots(mem, end, kind, 5)
            &&& end[Buffer::Prefill(Slot::O)] == product(
                Weight::Layer(i, Tensor::AttnOutput),
                mem[Buffer::Prefill(Slot::Attn(kind))],
            )
            &&& same_stores(mem, end)
        }),
{
    reveal_with_fuel(Pass::run, 4);
}

#[verifier::rlimit(40)]
proof fn lemma_chunk_gate_up(d: ModelDesc, i: usize, c: ChunkShape, int8: bool, mem: Memory)
    requires
        made_for(d),
    ensures
        ({
            let h = mem[Buffer::Prefill(Slot::X2)];
            let f = normed(h, Weight::Layer(i, Tensor::FfnNorm), 5376);
            let end = chunk_pass(d, c).run(chunk_gate_up(i, c, int8), 0, mem);
            &&& end[Buffer::Prefill(Slot::X2)] == h
            &&& end[Buffer::Prefill(Slot::Fin)] == f
            &&& forall|kind: LayerKind| #[trigger] same_slots(mem, end, kind, 8)
            &&& end[Buffer::Prefill(Slot::G)] == product(Weight::Layer(i, Tensor::FfnGate), f)
            &&& end[Buffer::Prefill(Slot::U)] == product(Weight::Layer(i, Tensor::FfnUp), f)
            &&& same_stores(mem, end)
        }),
{
    reveal_with_fuel(Pass::run, 8);
}

#[verifier::rlimit(40)]
proof fn lemma_chunk_down(d: ModelDesc, i: usize, c: ChunkShape, int8: bool, mem: Memory)
    requires
        made_for(d),
    ensures
        ({
            let end = chunk_pass(d, c).run(chunk_down(i, c, int8), 0, mem);
            &&& end[Buffer::Prefill(Slot::X2)] == mem[Buffer::Prefill(Slot::X2)]
            &&& forall|kind: LayerKind| #[trigger] same_slots(mem, end, kind, 9)
            &&& end[Buffer::Prefill(Slot::F)] == product(
                Weight::Layer(i, Tensor::FfnDown),
                Term::Gated(
                    Box::new(mem[Buffer::Prefill(Slot::G)]),
                    Box::new(mem[Buffer::Prefill(Slot::U)]),
                ),
            )
            &&& same_stores(mem, end)
        }),
{
    reveal_with_fuel(Pass::run, 6);
}

/// What the tap of a name shows in layer `i`, of the layer's input `x`.
pub open spec fn tap_term(d: ModelDesc, i: usize, scale: u32, name: Seq<char>, x: Term) -> Term {
    let kind = d.layer_kinds@[i as int];
    let o = product(Weight::Layer(i, Tensor::AttnOutput), attended(d, i, kind, x));
    let h = behind_attention(d, i, kind, x);
    let f = product(Weight::Layer(i, Tensor::FfnDown), gated(i, h));
    if name == "attn_norm"@ {
        normed(x, Weight::Layer(i, Tensor::AttnNorm), 5376)
    } else if name == "q_rope"@ {
        queries(d, i, kind, x)
    } else if name == "k_rope"@ {
        keys(d, i, kind, x)
    } else if name == "v_norm"@ {
        values(d, i, kind, x)
    } else if name == "attn"@ {
        attended(d, i, kind, x)
    } else if name == "attn_out"@ {
        o
    } else if name == "post_attn_norm"@ {
        normed(o, Weight::Layer(i, Tensor::PostAttentionNorm), 5376)
    } else if name == "h_attn"@ {
        h
    } else if name == "ffn_norm"@ {
        normed(h, Weight::Layer(i, Tensor::FfnNorm), 5376)
    } else if name == "ffn_out"@ {
        f
    } else if name == "post_ffn_norm"@ {
        normed(f, Weight::Layer(i, Tensor::PostFfwNorm), 5376)
    } else if name == "layer_out"@ {
        layer_term(d, i, scale, x)
    } else {
        Term::Junk
    }
}

/// The tap names differ.
proof fn lemma_tap_names()
    ensures
        "attn_norm"@.len() == 9 && "q_rope"@.len() == 6 && "k_rope"@.len() == 6 && "v_norm"@.len()
            == 6 && "attn"@.len() == 4 && "attn_out"@.len() == 8 && "post_attn_norm"@.len() == 14
            && "h_attn"@.len() == 6 && "ffn_norm"@.len() == 8 && "ffn_out"@.len() == 7
            && "post_ffn_norm"@.len() == 13 && "layer_out"@.len() == 9,
        "attn_norm"@[0] == 'a' && "layer_out"@[0] == 'l' && "q_rope"@[0] == 'q' && "k_rope"@[0]
            == 'k' && "v_norm"@[0] == 'v' && "h_attn"@[0] == 'h' && "attn_out"@[0] == 'a'
            && "ffn_norm"@[0] == 'f',
{
    reveal_strlit("attn_norm");
    reveal_strlit("q_rope");
    reveal_strlit("k_rope");
    reveal_strlit("v_norm");
    reveal_strlit("attn");
    reveal_strlit("attn_out");
    reveal_strlit("post_attn_norm");
    reveal_strlit("h_attn");
    reveal_strlit("ffn_norm");
    reveal_strlit("ffn_out");
    reveal_strlit("post_ffn_norm");
    reveal_strlit("layer_out");
}

/// The steps of a layer for a chunk compute the layer, row by row, in 16-bit
/// floats and with 8-bit products alike; and behind them every activation that
/// can be read by name is the one that the name stands for.
#[verifier::rlimit(40)]
pub proof fn lemma_chunk_layer(
    d: ModelDesc,
    i: usize,
    c: ChunkShape,
    int8: bool,
    scale: u32,
    mem: Memory,
)
    requires
        made_for(d),
        mem[Buffer::Keys(i)] == Term::Past,
        mem[Buffer::Values(i)] == Term::Past,
    ensures
        ({
            let x = mem[Buffer::Prefill(Slot::X)];
            let end = chunk_pass(d, c).run(chunk_layer(d, i, c, int8, scale), 0, mem);
            &&& end[Buffer::Prefill(Slot::X)] == layer_term(d, i, scale, x)
            &&& stores_grown(mem, end, d, i, x)
            &&& forall|name: Seq<char>|
                (#[trigger] tap_slot(name, d.layer_kinds@[i as int]) matches Some(slot)
                    ==> end[Buffer::Prefill(slot)] == tap_term(d, i, scale, name, x))
        }),
{
    let p = chunk_pass(d, c);
    let kind = d.layer_kinds@[i as int];
    let m = c.m_pad as int;
    let len = c.max_chunk * 5376;
    let l1 = chunk_projections(d, i, kind, c);
    let l2 = l1 + heads_turned(d, i, kind, m, true);
    let l3 = l2 + chunk_attention(d, i, kind, c);
    let l4 = l3 + chunk_output(i, kind, c);
    let e = joined_residual(
        i,
        m,
        true,
        Slot::O,
        Tensor::PostAttentionNorm,
        Slot::On,
        Slot::X,
        Slot::X2,
        ONE_BITS,
        len,
    );
    let l5 = l4 + e;
    let l6 = l5 + chunk_gate_up(i, c, int8);
    let l7 = l6 + chunk_down(i, c, int8);
    let g = joined_residual(
        i,
        m,
        true,
        Slot::F,
        Tensor::PostFfwNorm,
        Slot::Fn2,
        Slot::X2,
        Slot::X,
        scale,
        len,
    );
    lemma_joined(p, l1, heads_turned(d, i, kind, m, true), 0, mem);
    lemma_joined(p, l2, chunk_attention(d, i, kind, c), 0, mem);
    lemma_joined(p, l3, chunk_output(i, kind, c), 0, mem);
    lemma_joined(p, l4, e, 0, mem);
    lemma_joined(p, l5, chunk_gate_up(i, c, int8), 0, mem);
    lemma_joined(p, l6, chunk_down(i, c, int8), 0, mem);
    lemma_joined(p, l7, g, 0, mem);
    let m1 = p.run(l1, 0, mem);
    lemma_chunk_projections(d, i, kind, c, mem);
    lemma_heads(p, i, kind, m1);
    let m2 = p.run(l2, 0, mem);
    lemma_chunk_attention(d, i, kind, c, m2);
    let m3 = p.run(l3, 0, mem);
    lemma_chunk_output(d, i, kind, c, m3);
    let m4 = p.run(l4, 0, mem);
    lemma_residual(
        p,
        i,
        Slot::O,
        Tensor::PostAttentionNorm,
        Slot::On,
        Slot::X,
        Slot::X2,
        ONE_BITS,
        len,
        m4,
    );
    let m5 = p.run(l5, 0, mem);
    lemma_chunk_gate_up(d, i, c, int8, m5);
    let m6 = p.run(l6, 0, mem);
    lemma_chunk_down(d, i, c, int8, m6);
    let m7 = p.run(l7, 0, mem);
    lemma_residual(
        p,
        i,
        Slot::F,
        Tensor::PostFfwNorm,
        Slot::Fn2,
        Slot::X2,
        Slot::X,
        scale,
        len,
        m7,
    );
    assert(chunk_layer(d, i, c, int8, scale) == l7 + g);
    let end = p.run(l7 + g, 0, mem);
    let slots = tapped_slots(kind);
    assert(same_slots(m5, m6, kind, 8));
    assert(same_slots(m6, m7, kind, 9));
    assert(slots[0] == Slot::Xn && slots[1] == Slot::Q(kind) && slots[2] == Slot::K(kind)
        && slots[3] == Slot::V(kind) && slots[4] == Slot::Attn(kind) && slots[5] == Slot::O
        && slots[6] == Slot::On && slots[7] == Slot::X2 && slots[8] == Slot::Fin);
    assert(m3[Buffer::Prefill(slots[0])] == m2[Buffer::Prefill(Slot::Xn)]);
    assert forall|k: int| 0 <= k < 9 implies #[trigger] end[Buffer::Prefill(slots[k])]
        == m7[Buffer::Prefill(slots[k])] by {}
    assert forall|k: int| 0 <= k < 8 implies #[trigger] end[Buffer::Prefill(slots[k])]
        == m5[Buffer::Prefill(slots[k])] by {
        assert(m6[Buffer::Prefill(slots[k])] == m5[Buffer::Prefill(slots[k])]);
        assert(m7[Buffer::Prefill(slots[k])] == m6[Buffer::Prefill(slots[k])]);
    }
    assert forall|k: int| 0 <= k < 6 implies #[trigger] end[Buffer::Prefill(slots[k])]
        == m4[Buffer::Prefill(slots[k])] by {}
    assert forall|k: int| 0 <= k < 5 implies #[trigger] end[Buffer::Prefill(slots[k])]
        == m3[Buffer::Prefill(slots[k])] by {
        assert(m4[Buffer::Prefill(slots[k])] == m3[Buffer::Prefill(slots[k])]);
    }
    assert forall|k: int| 0 <= k < 4 implies #[trigger] end[Buffer::Prefill(slots[k])]
        == m2[Buffer::Prefill(slots[k])] by {
        assert(m3[Buffer::Prefill(slots[k])] == m2[Buffer::Prefill(slots[k])]);
    }
    assert(end[Buffer::Prefill(slots[0])] == m1[Buffer::Prefill(Slot::Xn)]);
    assert(m7[Buffer::Prefill(slots[8])] == m6[Buffer::Prefill(slots[8])]);
    lemma_tap_names();
    assert forall|name: Seq<char>| #[trigger]
        tap_slot(name, kind) is Some implies end[Buffer::Prefill(tap_slot(name, kind)->0)]
        == tap_term(d, i, scale, name, mem[Buffer::Prefill(Slot::X)]) by {
        assert(end[Buffer::Prefill(slots[1])] == m2[Buffer::Prefill(slots[1])]);
        assert(end[Buffer::Prefill(slots[2])] == m2[Buffer::Prefill(slots[2])]);
        assert(end[Buffer::Prefill(slots[3])] == m2[Buffer::Prefill(slots[3])]);
        assert(end[Buffer::Prefill(slots[4])] == m3[Buffer::Prefill(slots[4])]);
        assert(end[Buffer::Prefill(slots[5])] == m4[Buffer::Prefill(slots[5])]);
        assert(end[Buffer::Prefill(slots[6])] == m5[Buffer::Prefill(slots[6])]);
        assert(end[Buffer::Prefill(slots[7])] == m5[Buffer::Prefill(slots[7])]);
        assert(end[Buffer::Prefill(slots[8])] == m7[Buffer::Prefill(slots[8])]);
    }
}

/// The layers `from..to` of a chunk compute the layers of the formula, row by
/// row, and each adds to its stores the keys and values of its own input.
pub proof fn lemma_chunk_layers(
    d: ModelDesc,
    scales: Seq<u32>,
    c: ChunkShape,
    int8: bool,
    from: int,
    to: int,
    mem: Memory,
)
    requires
        made_for(d),
        0 <= from <= to <= usize::MAX,
        stores_from(mem, from),
    ensures
        ({
            let x = mem[Buffer::Prefill(Slot::X)];
            let end = chunk_pass(d, c).run(chunk_layers(d, scales, c, int8, from, to), 0, mem);
            &&& end[Buffer::Prefill(Slot::X)] == layers_term(d, scales, from, to, x)
            &&& stores_from(end, to)
            &&& stores_added(end, d, scales, from, to, x)
            &&& stores_kept(mem, end, from)
        }),
    decreases to - from,
{
    let p = chunk_pass(d, c);
    if from < to {
        let before = chunk_layers(d, scales, c, int8, from, to - 1);
        let last = chunk_layer(d, (to - 1) as usize, c, int8, scales[to - 1]);
        lemma_chunk_layers(d, scales, c, int8, from, to - 1, mem);
        lemma_joined(p, before, last, 0, mem);
        let mid = p.run(before, 0, mem);
        assert(mid[Buffer::Keys((to - 1) as usize)] == Term::Past);
        lemma_chunk_layer(d, (to - 1) as usize, c, int8, scales[to - 1], mid);
    }
}

/// The end of a chunk computes the logits of its last real row.
pub proof fn lemma_chunk_logits(d: ModelDesc, c: ChunkShape, mem: Memory)
    requires
        c.wf(d),
    ensures
        chunk_pass(d, c).run(chunk_logits(d, c.n_real as int), 0, mem)[Buffer::Decode(
            Slot::Logits,
        )] == logits_term(Term::Row(Box::new(mem[Buffer::Prefill(Slot::X)]), c.n_real - 1)),
{
    reveal_with_fuel(Pass::run, 4);
    assert(c.n_real * 5376 <= u64::MAX);
}

/// What the activations and the stores of the host reference pass hold.
pub struct Host {
    pub values: Map<Value, Term>,
    pub keys: Map<usize, Term>,
    pub vals: Map<usize, Term>,
    /// What has been tapped so far.
    pub taps: Seq<(Tap, Option<usize>, Term)>,
}

/// Elements of a row of an activation that holds whole rows.
pub open spec fn row_width(d: ModelDesc, x: Value) -> int {
    match x {
        Value::X | Value::Xn | Value::O | Value::FfnIn | Value::F => d.hidden_size as int,
        _ => 0,
    }
}

/// Heads of an activation that holds heads.
pub open spec fn head_count(d: ModelDesc, kind: LayerKind, x: Value) -> int {
    match x {
        Value::Q => d.n_q_heads as int,
        Value::K | Value::V => d.geometry(kind).n_kv_heads as int,
        _ => 0,
    }
}

/// So many heads of so many elements are those of an activation in a layer of
/// a kind.
pub open spec fn heads_fit(d: ModelDesc, kind: LayerKind, x: Value, heads: usize, dim: usize) -> bool {
    heads == head_count(d, kind, x) && dim == d.geometry(kind).head_dim
}

/// The matrix behind a weight of the pass: its inputs and outputs.
pub open spec fn weight_shape(d: ModelDesc, w: Weight) -> (int, int) {
    match w {
        Weight::Layer(i, t) => matrix_shape(d, d.layer_kinds@[i as int], t),
        Weight::TokenEmbd => (d.hidden_size as int, d.vocab_size as int),
        _ => (0, 0),
    }
}

/// What an operation of the host reference pass computes. One that does not
/// fit its activations computes nothing of use.
pub open spec fn host_past(
    d: ModelDesc,
    c: Conventions,
    scales: Seq<u32>,
    op: Op,
    h: Host,
) -> Host {
    let with = |x: Value, t: Term| Host { values: h.values.insert(x, t), ..h };
    match op {
        Op::Embed => with(Value::X, Term::Input),
        Op::Copy { from, to } => with(to, h.values[from]),
        Op::NormRows { x, weight } => with(
            x,
            if !c.norm_one_plus_w && row_width(d, x) == 5376 {
                normed(h.values[x], weight, 5376)
            } else {
                Term::Junk
            },
        ),
        Op::MatMul { weight, n_in, n_out, x, y } => with(
            y,
            if weight_shape(d, weight) == (n_in as int, n_out as int) {
                product(weight, h.values[x])
            } else {
                Term::Junk
            },
        ),
        Op::NormHeads { x, heads, dim, weight } => with(
            x,
            if !c.norm_one_plus_w && (heads_fit(d, LayerKind::Sliding, x, heads, dim) || heads_fit(
                d,
                LayerKind::Global,
                x,
                heads,
                dim,
            )) {
                Term::Normed(Box::new(h.values[x]), weight, dim as int)
            } else {
                Term::Junk
            },
        ),
        Op::Rope { x, heads, dim, kind } => with(
            x,
            if heads_fit(d, kind, x, heads, dim) {
                Term::Turned(Box::new(h.values[x]), kind)
            } else {
                Term::Junk
            },
        ),
        Op::Append(i) => Host {
            keys: h.keys.insert(
                i,
                if h.keys[i] == Term::Past {
                    Term::Grown(Box::new(h.values[Value::K]))
                } else {
                    Term::Junk
                },
            ),
            vals: h.vals.insert(
                i,
                if h.vals[i] == Term::Past {
                    Term::Grown(Box::new(h.values[Value::V]))
                } else {
                    Term::Junk
                },
            ),
            ..h
        },
        Op::Attend { layer, n_kv, dim, window } => {
            let kind = d.layer_kinds@[layer as int];
            with(
                Value::Attn,
                match (h.keys[layer], h.vals[layer]) {
                    (Term::Grown(k), Term::Grown(v)) => if c.attn_scale == 0x3f80_0000 && n_kv
                        == d.geometry(kind).n_kv_heads && dim == d.geometry(kind).head_dim && (
                    match window {
                        Some(w) => kind == LayerKind::Sliding && w == d.sliding_window,
                        None => kind == LayerKind::Global,
                    }) {
                        Term::Attended { layer, kind, q: Box::new(h.values[Value::Q]), k, v }
                    } else {
                        Term::Junk
                    },
                    _ => Term::Junk,
                },
            )
        },
        Op::AddTo(x) => with(
            Value::X,
            Term::Sum(Box::new(h.values[Value::X]), Box::new(h.values[x])),
        ),
        Op::Geglu => with(
            Value::Gate,
            Term::Gated(Box::new(h.values[Value::Gate]), Box::new(h.values[Value::Up])),
        ),
        Op::Scale(w) => with(
            Value::X,
            match w {
                Weight::Layer(i, Tensor::LayerOutputScale) => times(
                    h.values[Value::X],
                    scales[i as int],
                ),
                _ => Term::Junk,
            },
        ),
        Op::Softcap => with(Value::Logits, Term::Capped(Box::new(h.values[Value::Logits]))),
        Op::Advance => h,
        Op::Tap { point, layer, x } => Host {
            taps: h.taps.push((point, layer, h.values[x])),
            ..h
        },
    }
}

/// What the operations from `i` on compute.
pub open spec fn host_run(
    d: ModelDesc,
    c: Conventions,
    scales: Seq<u32>,
    ops: Seq<Op>,
    i: int,
    h: Host,
) -> Host
    decreases ops.len() - i,
{
    if i < 0 || i >= ops.len() {
        h
    } else {
        host_run(d, c, scales, ops, i + 1, host_past(d, c, scales, ops[i], h))
    }
}

proof fn lemma_host_behind(
    d: ModelDesc,
    c: Conventions,
    scales: Seq<u32>,
    a: Seq<Op>,
    b: Seq<Op>,
    i: int,
    h: Host,
)
    requires
        0 <= i <= b.len(),
    ensures
        host_run(d, c, scales, a + b, a.len() + i, h) == host_run(
            d,
            c,
            scales,
            b,
            i,
            h,
        ),
    decreases b.len() - i,
{
    if i < b.len() {
        assert((a + b)[a.len() + i] == b[i]);
        let next = host_past(d, c, scales, b[i], h);
        lemma_host_behind(d, c, scales, a, b, i + 1, next);
    }
}

proof fn lemma_host_joined(
    d: ModelDesc,
    c: Conventions,
    scales: Seq<u32>,
    a: Seq<Op>,
    b: Seq<Op>,
    i: int,
    h: Host,
)
    requires
        0 <= i <= a.len(),
    ensures
        host_run(d, c, scales, a + b, i, h) == host_run(
            d,
            c,
            scales,
            b,
            0,
            host_run(d, c, scales, a, i, h),
        ),
    decreases a.len() - i,
{
    if i < a.len() {
        assert((a + b)[i] == a[i]);
        let next = host_past(d, c, scales, a[i], h);
        lemma_host_joined(d, c, scales, a, b, i + 1, next);
    } else {
        lemma_host_behind(d, c, scales, a, b, 0, h);
    }
}

/// The reading that the model is pinned to.
pub open spec fn pinned_reading(c: Conventions) -> bool {
    !c.norm_one_plus_w && c.attn_scale == 0x3f80_0000 && c.v_norm && c.layer_output_scale
}

#[verifier::rlimit(40)]
proof fn lemma_host_qkv(d: ModelDesc, c: Conventions, scales: Seq<u32>, i: usize, h: Host)
    requires
        made_for(d),
        pinned_reading(c),
    ensures
        ({
            let kind = d.layer_kinds@[i as int];
            let x = h.values[Value::X];
            let end = host_run(d, c, scales, qkv_ops(d, c, i, kind), 0, h);
            &&& end.values[Value::X] == x
            &&& end.values[Value::Q] == queries(d, i, kind, x)
            &&& end.values[Value::K] == keys(d, i, kind, x)
            &&& end.values[Value::V] == values(d, i, kind, x)
            &&& end.keys == h.keys
            &&& end.vals == h.vals
            &&& end.taps == h.taps.push(
                (Tap::AttnNorm, Some(i), normed(x, Weight::Layer(i, Tensor::AttnNorm), 5376)),
            ).push((Tap::QRope, Some(i), queries(d, i, kind, x))).push(
                (Tap::KRope, Some(i), keys(d, i, kind, x)),
            ).push((Tap::VNorm, Some(i), values(d, i, kind, x)))
        }),
{
    reveal_with_fuel(host_run, 16);
}

#[verifier::rlimit(40)]
proof fn lemma_host_attention(d: ModelDesc, c: Conventions, scales: Seq<u32>, i: usize, h: Host)
    requires
        made_for(d),
        pinned_reading(c),
        h.keys[i] == Term::Past,
        h.vals[i] == Term::Past,
    ensures
        ({
            let kind = d.layer_kinds@[i as int];
            let a = Term::Attended {
                layer: i,
                kind,
                q: Box::new(h.values[Value::Q]),
                k: Box::new(h.values[Value::K]),
                v: Box::new(h.values[Value::V]),
            };
            let o = product(Weight::Layer(i, Tensor::AttnOutput), a);
            let end = host_run(d, c, scales, attention_ops(d, i, kind), 0, h);
            &&& end.values[Value::X] == Term::Sum(
                Box::new(h.values[Value::X]),
                Box::new(normed(o, Weight::Layer(i, Tensor::PostAttentionNorm), 5376)),
            )
            &&& end.keys == h.keys.insert(i, Term::Grown(Box::new(h.values[Value::K])))
            &&& end.vals == h.vals.insert(i, Term::Grown(Box::new(h.values[Value::V])))
            &&& end.taps == h.taps.push((Tap::AttnOut, Some(i), o)).push(
                (
                    Tap::PostAttnNorm,
                    Some(i),
                    normed(o, Weight::Layer(i, Tensor::PostAttentionNorm), 5376),
                ),
            ).push((Tap::HAttn, Some(i), end.values[Value::X]))
        }),
{
    reveal_with_fuel(host_run, 10);
}

#[verifier::rlimit(40)]
proof fn lemma_host_ffn(
    d: ModelDesc,
    c: Conventions,
    scales: Seq<u32>,
    i: usize,
    h: Host,
)
    requires
        made_for(d),
        pinned_reading(c),
    ensures
        ({
            let end = host_run(d, c, scales, ffn_ops(d, c, i), 0, h);
            let x = h.values[Value::X];
            let f = product(Weight::Layer(i, Tensor::FfnDown), gated(i, x));
            &&& end.values[Value::X] == behind_ffn(i, x, scales[i as int])
            &&& end.keys == h.keys
            &&& end.vals == h.vals
            &&& end.taps == h.taps.push(
                (Tap::FfnNorm, Some(i), normed(x, Weight::Layer(i, Tensor::FfnNorm), 5376)),
            ).push((Tap::FfnOut, Some(i), f)).push(
                (Tap::PostFfnNorm, Some(i), normed(f, Weight::Layer(i, Tensor::PostFfwNorm), 5376)),
            ).push((Tap::LayerOut, Some(i), end.values[Value::X]))
        }),
{
    reveal_with_fuel(host_run, 15);
}

/// A layer of the host reference pass computes the layer of the formula, and
/// each of its taps shows what the tap's name stands for: the same that is read
/// back under that name from the device.
#[verifier::rlimit(40)]
pub proof fn lemma_host_layer(d: ModelDesc, c: Conventions, scales: Seq<u32>, i: usize, h: Host)
    requires
        made_for(d),
        pinned_reading(c),
        h.keys[i] == Term::Past,
        h.vals[i] == Term::Past,
    ensures
        ({
            let kind = d.layer_kinds@[i as int];
            let x = h.values[Value::X];
            let end = host_run(d, c, scales, layer_ops(d, c, i), 0, h);
            &&& end.values[Value::X] == layer_term(d, i, scales[i as int], x)
            &&& end.keys == h.keys.insert(i, Term::Grown(Box::new(keys(d, i, kind, x))))
            &&& end.vals == h.vals.insert(i, Term::Grown(Box::new(values(d, i, kind, x))))
            &&& end.taps.len() == h.taps.len() + 11
            &&& end.taps.take(h.taps.len() as int) == h.taps
            &&& forall|k: int|
                h.taps.len() <= k < end.taps.len() ==> {
                    let (point, layer, shown) = #[trigger] end.taps[k];
                    &&& layer == Some(i)
                    &&& shown == tap_term(d, i, scales[i as int], tap_name(point), x)
                    &&& point == seq![
                        Tap::AttnNorm,
                        Tap::QRope,
                        Tap::KRope,
                        Tap::VNorm,
                        Tap::AttnOut,
                        Tap::PostAttnNorm,
                        Tap::HAttn,
                        Tap::FfnNorm,
                        Tap::FfnOut,
                        Tap::PostFfnNorm,
                        Tap::LayerOut,
                    ][k - h.taps.len()]
                }
        }),
{
    let kind = d.layer_kinds@[i as int];
    let a = qkv_ops(d, c, i, kind);
    let b = attention_ops(d, i, kind);
    lemma_host_joined(d, c, scales, a, b, 0, h);
    lemma_host_joined(d, c, scales, a + b, ffn_ops(d, c, i), 0, h);
    lemma_host_qkv(d, c, scales, i, h);
    let h1 = host_run(d, c, scales, a, 0, h);
    lemma_host_attention(d, c, scales, i, h1);
    lemma_host_ffn(d, c, scales, i, host_run(d, c, scales, a + b, 0, h));
    lemma_tap_names();
    let end = host_run(d, c, scales, layer_ops(d, c, i), 0, h);
    assert(end.taps.take(h.taps.len() as int) =~= h.taps);
    assert(end.taps.len() == h.taps.len() + 11);
}

/// The first `n` layers of the host reference pass compute those of the
/// formula, and each store gets the keys and values of its layer's input.
pub proof fn lemma_host_layers(d: ModelDesc, c: Conventions, scales: Seq<u32>, n: nat, h: Host)
    requires
        made_for(d),
        pinned_reading(c),
        n <= usize::MAX,
        forall|j: usize| #[trigger] h.keys[j] == Term::Past && h.vals[j] == Term::Past,
    ensures
        ({
            let x = h.values[Value::X];
            let end = host_run(d, c, scales, layers_ops(d, c, n), 0, h);
            &&& end.values[Value::X] == layers_term(d, scales, 0, n as int, x)
            &&& forall|j: usize|
                n <= j ==> #[trigger] end.keys[j] == Term::Past && end.vals[j] == Term::Past
            &&& forall|j: usize|
                j < n ==> {
                    let kind = d.layer_kinds@[j as int];
                    let y = layers_term(d, scales, 0, j as int, x);
                    &&& #[trigger] end.keys[j] == Term::Grown(Box::new(keys(d, j, kind, y)))
                    &&& end.vals[j] == Term::Grown(Box::new(values(d, j, kind, y)))
                }
        }),
    decreases n,
{
    if n > 0 {
        lemma_host_layers(d, c, scales, (n - 1) as nat, h);
        let ops = layers_ops(d, c, (n - 1) as nat);
        let before = host_run(d, c, scales, ops, 0, h);
        let i = (n - 1) as usize;
        lemma_host_joined(d, c, scales, ops, layer_ops(d, c, i), 0, h);
        assert(before.keys[i] == Term::Past);
        lemma_host_layer(d, c, scales, i, before);
    }
}

/// The host reference pass begins with the embeddings, and ends with the
/// logits of the residual stream.
pub proof fn lemma_host_ends(
    d: ModelDesc,
    c: Conventions,
    scales: Seq<u32>,
    h: Host,
)
    requires
        made_for(d),
        pinned_reading(c),
    ensures
        host_run(d, c, scales, opening_ops(), 0, h) == (Host {
            values: h.values.insert(Value::X, Term::Input),
            taps: h.taps.push((Tap::Embed, None, Term::Input)),
            ..h
        }),
        ({
            let x = h.values[Value::X];
            host_run(d, c, scales, closing_ops(d), 0, h).taps == h.taps.push(
                (Tap::FinalNorm, None, normed(x, Weight::OutputNorm, 5376)),
            ).push((Tap::Logits, None, logits_term(x)))
        }),
        host_run(d, c, scales, closing_ops(d), 0, h).values[Value::Logits] == logits_term(
            h.values[Value::X],
        ),
{
    reveal_with_fuel(host_run, 8);
}

/// The host reference pass as a whole: the logits of what all layers make of
/// the embeddings.
pub proof fn lemma_host_pass(d: ModelDesc, c: Conventions, scales: Seq<u32>, h: Host)
    requires
        d.wf(),
        made_for(d),
        pinned_reading(c),
        forall|j: usize| #[trigger] h.keys[j] == Term::Past && h.vals[j] == Term::Past,
    ensures
        host_run(d, c, scales, forward_ops(d, c), 0, h).values[Value::Logits] == logits_term(
            layers_term(d, scales, 0, d.layer_kinds@.len() as int, Term::Input),
        ),
{
    let n = d.layer_kinds@.len();
    let a = opening_ops();
    let b = layers_ops(d, c, n);
    lemma_host_joined(d, c, scales, a, b, 0, h);
    lemma_host_joined(d, c, scales, a + b, closing_ops(d), 0, h);
    lemma_host_ends(d, c, scales, h);
    lemma_host_layers(d, c, scales, n, host_run(d, c, scales, a, 0, h));
    lemma_host_ends(d, c, scales, host_run(d, c, scales, a + b, 0, h));
}

/// A decode step, a prefill chunk and the host reference pass compute the same
/// function: from the same residual stream and the same stores, the decode
/// step's logits are those of the host, and a chunk's residual stream is, row
/// by row, that of both.
#[verifier::rlimit(40)]
pub proof fn lemma_passes_agree(
    d: ModelDesc,
    c: Conventions,
    scales: Seq<u32>,
    shape: ChunkShape,
    int8: bool,
    mem: Memory,
    h: Host,
)
    requires
        d.wf(),
        made_for(d),
        pinned_reading(c),
        shape.wf(d),
        forall|j: usize| #[trigger] h.keys[j] == Term::Past && h.vals[j] == Term::Past,
        stores_from(mem, 0),
        mem[Buffer::Decode(Slot::X)] == Term::Input,
        mem[Buffer::Prefill(Slot::X)] == Term::Input,
    ensures
        ({
            let n = d.layer_kinds@.len() as int;
            let token = token_pass(d).run(
                decode_layers(d, scales, 0, n) + decode_logits(d),
                0,
                mem,
            );
            let chunk = chunk_pass(d, shape).run(
                chunk_layers(d, scales, shape, int8, 0, n) + chunk_logits(d, shape.n_real as int),
                0,
                mem,
            );
            let last = Term::Row(
                Box::new(layers_term(d, scales, 0, n, Term::Input)),
                shape.n_real - 1,
            );
            let host = host_run(d, c, scales, forward_ops(d, c), 0, h);
            &&& token[Buffer::Decode(Slot::Logits)] == host.values[Value::Logits]
            &&& chunk[Buffer::Decode(Slot::Logits)] == logits_term(last)
            &&& host.values[Value::Logits] == logits_term(
                layers_term(d, scales, 0, n, Term::Input),
            )
        }),
{
    let n = d.layer_kinds@.len() as int;
    lemma_host_pass(d, c, scales, h);
    let p = token_pass(d);
    let a = decode_layers(d, scales, 0, n);
    lemma_decode_layers(d, scales, 0, n, mem);
    lemma_joined(p, a, decode_logits(d), 0, mem);
    lemma_decode_logits(d, p.run(a, 0, mem));
    let q = chunk_pass(d, shape);
    let b = chunk_layers(d, scales, shape, int8, 0, n);
    lemma_chunk_layers(d, scales, shape, int8, 0, n, mem);
    lemma_joined(q, b, chunk_logits(d, shape.n_real as int), 0, mem);
    lemma_chunk_logits(d, shape, q.run(b, 0, mem));
}

/// Wherever a decode layer multiplies `gelu` of one operand by another, the
/// first is the product with the layer's `FfnGate` weights, and the other that
/// with its `FfnUp` weights, of one and the same input.
pub proof fn lemma_gate_operands(d: ModelDesc, i: usize, scale: u32, mem: Memory, t: int)
    requires
        made_for(d),
        0 <= t < decode_layer(d, i, scale).len(),
        decode_layer(d, i, scale)[t].kernel == Kernel::Geglu,
    ensures
        ({
            let s = decode_layer(d, i, scale)[t];
            let before = token_pass(d).run(decode_layer(d, i, scale).take(t), 0, mem);
            let h = before[Buffer::Decode(Slot::X2)];
            let f = normed(h, Weight::Layer(i, Tensor::FfnNorm), 5376);
            &&& before[buffer(s, 0)] == product(Weight::Layer(i, Tensor::FfnGate), f)
            &&& before[buffer(s, 1)] == product(Weight::Layer(i, Tensor::FfnUp), f)
        }),
{
    let p = token_pass(d);
    let kind = d.layer_kinds@[i as int];
    let head = decode_projections(d, i, kind) + heads_turned(d, i, kind, 1, false)
        + decode_attention(d, i, kind) + joined_residual(
        i,
        1,
        false,
        Slot::O,
        Tensor::PostAttentionNorm,
        Slot::On,
        Slot::X,
        Slot::X2,
        ONE_BITS,
        5376,
    );
    let ffn = decode_ffn(i);
    let all = decode_layer(d, i, scale);
    assert(t == head.len() + 3);
    assert(all.take(t) =~= head + ffn.take(3));
    lemma_joined(p, head, ffn.take(3), 0, mem);
    assert(all[t] == ffn[3]);
    reveal_with_fuel(Pass::run, 5);
}

/// The buffers are as wide as what is written to them and read from them: a
/// product takes the whole row of its input and fills the whole row of its
/// output, and heads lie side by side.
#[verifier::rlimit(40)]
pub proof fn lemma_buffers_hold(d: ModelDesc, kind: LayerKind)
    requires
        made_for(d),
    ensures
        ({
            let g = d.geometry(kind);
            let half = |s: Slot, n: int| decode_size(d, s) == Some((Element::Half, n));
            let shape = |t: Tensor| matrix_shape(d, kind, t);
            &&& half(Slot::X, d.hidden_size as int)
            &&& half(Slot::X2, d.hidden_size as int)
            &&& half(Slot::Xn, shape(Tensor::AttnQ).0)
            &&& half(Slot::Xn, shape(Tensor::AttnK).0)
            &&& half(Slot::Xn, shape(Tensor::AttnV).0)
            &&& half(Slot::QRaw(kind), shape(Tensor::AttnQ).1)
            &&& half(Slot::Kp(kind), shape(Tensor::AttnK).1)
            &&& kind == LayerKind::Sliding ==> half(Slot::Vp, shape(Tensor::AttnV).1)
            &&& half(Slot::Q(kind), d.n_q_heads * g.head_dim)
            &&& half(Slot::K(kind), g.n_kv_heads * g.head_dim)
            &&& half(Slot::V(kind), g.n_kv_heads * g.head_dim)
            &&& half(Slot::Attn(kind), shape(Tensor::AttnOutput).0)
            &&& half(Slot::O, shape(Tensor::AttnOutput).1)
            &&& half(Slot::On, d.hidden_size as int)
            &&& half(Slot::Fin, shape(Tensor::FfnGate).0)
            &&& half(Slot::Fin, shape(Tensor::FfnUp).0)
            &&& half(Slot::G, shape(Tensor::FfnGate).1)
            &&& half(Slot::U, shape(Tensor::FfnUp).1)
            &&& half(Slot::Gu, shape(Tensor::FfnDown).0)
            &&& half(Slot::F, shape(Tensor::FfnDown).1)
            &&& half(Slot::Fn2, d.hidden_size as int)
            &&& decode_size(d, Slot::Logits) == Some((Element::Single, d.vocab_size as int))
            &&& decode_size(d, Slot::CosSin(kind)) == Some(
                (
                    Element::Single,
                    match kind {
                        LayerKind::Sliding => 256int,
                        LayerKind::Global => 128int,
                    },
                ),
            )
            &&& decode_size(d, Slot::Part(kind)) == Some(
                (Element::Single, d.n_q_heads * (splits(kind) * (g.head_dim + 2))),
            )
            &&& forall|cap: int| #[trigger]
                store_size(d, kind, cap) == (match kind {
                    LayerKind::Sliding => d.sliding_window as int,
                    LayerKind::Global => cap,
                }) * (g.n_kv_heads * g.head_dim)
        }),
{
    let g = d.geometry(kind);
    assert(32 * splits(kind) * (g.head_dim + 2) == 32 * (splits(kind) * (g.head_dim + 2)))
        by (nonlinear_arith);
}

proof fn lemma_widths_spelled()
    ensures
        decimal(5376) == "5376"@,
        decimal(8192) == "8192"@,
        decimal(16384) == "16384"@,
        decimal(21504) == "21504"@,
        decimal(4096) == "4096"@,
        decimal(2048) == "2048"@,
{
    reveal_with_fuel(decimal, 6);
    reveal_strlit("5376");
    reveal_strlit("8192");
    reveal_strlit("16384");
    reveal_strlit("21504");
    reveal_strlit("4096");
    reveal_strlit("2048");
    assert(decimal(5376) =~= "5376"@);
    assert(decimal(8192) =~= "8192"@);
    assert(decimal(16384) =~= "16384"@);
    assert(decimal(21504) =~= "21504"@);
    assert(decimal(4096) =~= "4096"@);
    assert(decimal(2048) =~= "2048"@);
}

/// A product's kernel is loaded under the name of the widths that it is made
/// for.
#[verifier::rlimit(40)]
pub proof fn lemma_kernel_names(k: Kernel)
    ensures
        ({
            let (n_in, n_out) = kernel_shape(k);
            match k {
                Kernel::Gemv5376 | Kernel::Gemv8192 | Kernel::Gemv16384 | Kernel::Gemv21504 =>
                    kernel_name(k) == "gemv_q4_0_k"@ + decimal(n_in as nat),
                Kernel::GemmUpI8 | Kernel::GemmDownI8 => kernel_name(k) == "gemm_q4_0_i8_t22_k"@
                    + decimal(n_in as nat) + "_n"@ + decimal(n_out as nat),
                _ => n_out > 0 ==> kernel_name(k) == "gemm_q4_0_k"@ + decimal(n_in as nat) + "_n"@
                    + decimal(n_out as nat),
            }
        }),
{
    lemma_widths_spelled();
    reveal_strlit("5376");
    reveal_strlit("8192");
    reveal_strlit("16384");
    reveal_strlit("21504");
    reveal_strlit("4096");
    reveal_strlit("2048");
    reveal_strlit("gemv_q4_0_k");
    reveal_strlit("gemm_q4_0_k");
    reveal_strlit("gemm_q4_0_i8_t22_k");
    reveal_strlit("_n");
    reveal_strlit("gemv_q4_0_k5376");
    reveal_strlit("gemv_q4_0_k8192");
    reveal_strlit("gemv_q4_0_k16384");
    reveal_strlit("gemv_q4_0_k21504");
    reveal_strlit("gemm_q4_0_k5376_n8192");
    reveal_strlit("gemm_q4_0_k5376_n16384");
    reveal_strlit("gemm_q4_0_k5376_n4096");
    reveal_strlit("gemm_q4_0_k5376_n2048");
    reveal_strlit("gemm_q4_0_k8192_n5376");
    reveal_strlit("gemm_q4_0_k16384_n5376");
    reveal_strlit("gemm_q4_0_k5376_n21504");
    reveal_strlit("gemm_q4_0_k21504_n5376");
    reveal_strlit("gemm_q4_0_i8_t22_k5376_n21504");
    reveal_strlit("gemm_q4_0_i8_t22_k21504_n5376");
    let (n_in, n_out) = kernel_shape(k);
    match k {
        Kernel::Gemv5376 | Kernel::Gemv8192 | Kernel::Gemv16384 | Kernel::Gemv21504 => {
            assert(kernel_name(k) =~= "gemv_q4_0_k"@ + decimal(n_in as nat));
        },
        Kernel::GemmUpI8 | Kernel::GemmDownI8 => {
            assert(kernel_name(k) =~= "gemm_q4_0_i8_t22_k"@ + decimal(n_in as nat) + "_n"@
                + decimal(n_out as nat));
        },
        _ => {
            if n_out > 0 {
                assert(kernel_name(k) =~= "gemm_q4_0_k"@ + decimal(n_in as nat) + "_n"@ + decimal(
                    n_out as nat,
                ));
            }
        },
    }
}

/// Layers after layers.
proof fn lemma_layers_compose(
    d: ModelDesc,
    scales: Seq<u32>,
    from: int,
    mid: int,
    to: int,
    x: Term,
)
    requires
        from <= mid <= to,
    ensures
        layers_term(d, scales, mid, to, layers_term(d, scales, from, mid, x)) == layers_term(
            d,
            scales,
            from,
            to,
            x,
        ),
    decreases to - mid,
{
    if mid < to {
        lemma_layers_compose(d, scales, from, mid, to - 1, x);
    }
}

impl Pass {
    /// What the buffers hold behind the graphs from `k` on, submitted in order.
    pub open spec fn run_all(self, graphs: Seq<Seq<Step>>, k: int, mem: Memory) -> Memory
        decreases graphs.len() - k,
    {
        if k < 0 || k >= graphs.len() {
            mem
        } else {
            self.run_all(graphs, k + 1, self.run(graphs[k], 0, mem))
        }
    }
}

#[verifier::rlimit(40)]
proof fn lemma_segments_run(
    m: GpuModel,
    m_pad: usize,
    n_real: usize,
    mode: LogitsMode,
    k: int,
    x: Term,
    mem: Memory,
)
    requires
        made_for(m.desc),
        m.desc.wf(),
        m.shape(m_pad as int, n_real as int).wf(m.desc),
        0 <= k < segment_count(m.desc.n_layers as int),
        stores_from(mem, segment_start(k)),
        stores_added(mem, m.desc, m.scales@, 0, segment_start(k), x),
        mem[Buffer::Prefill(Slot::X)] == layers_term(m.desc, m.scales@, 0, segment_start(k), x),
    ensures
        ({
            let (d, scales) = (m.desc, m.scales@);
            let n = d.n_layers as int;
            let end = chunk_pass(d, m.shape(m_pad as int, n_real as int)).run_all(
                m.graphs(GraphKey::Prefill(m_pad, n_real, mode)),
                k,
                mem,
            );
            let y = layers_term(d, scales, 0, n, x);
            &&& end[Buffer::Prefill(Slot::X)] == y
            &&& stores_added(end, d, scales, 0, n, x)
            &&& mode == LogitsMode::Last ==> end[Buffer::Decode(Slot::Logits)] == logits_term(
                Term::Row(Box::new(y), n_real - 1),
            )
        }),
    decreases segment_count(m.desc.n_layers as int) - k,
{
    let (d, scales) = (m.desc, m.scales@);
    let n = d.n_layers as int;
    let c = m.shape(m_pad as int, n_real as int);
    let p = chunk_pass(d, c);
    let graphs = m.graphs(GraphKey::Prefill(m_pad, n_real, mode));
    let (from, to) = (segment_start(k), segment_end(k, n));
    lemma_segments_cover(n, k);
    let layers = chunk_layers(d, scales, c, m.int8, from, to);
    lemma_chunk_layers(d, scales, c, m.int8, from, to, mem);
    let mid = p.run(layers, 0, mem);
    lemma_layers_compose(d, scales, 0, from, to, x);
    assert(stores_added(mid, d, scales, 0, to, x)) by {
        assert forall|j: usize| 0 <= j < to implies ({
            let kind = d.layer_kinds@[j as int];
            let y = layers_term(d, scales, 0, j as int, x);
            &&& #[trigger] mid[Buffer::Keys(j)] == Term::Grown(Box::new(keys(d, j, kind, y)))
            &&& mid[Buffer::Values(j)] == Term::Grown(Box::new(values(d, j, kind, y)))
        }) by {
            if j < from {
                assert(mem[Buffer::Keys(j)] == mid[Buffer::Keys(j)]);
                assert(mem[Buffer::Values(j)] == mid[Buffer::Values(j)]);
            } else {
                lemma_layers_compose(d, scales, 0, from, j as int, x);
            }
        }
    }
    if k + 1 < segment_count(n) {
        assert(graphs[k] =~= layers);
        lemma_segments_run(m, m_pad, n_real, mode, k + 1, x, mid);
    } else if mode == LogitsMode::Last {
        let tail = chunk_logits(d, n_real as int);
        assert(graphs[k] == layers + tail);
        lemma_joined(p, layers, tail, 0, mem);
        lemma_chunk_logits(d, c, mid);
        lemma_logits_frame(d, c, mid);
        assert(p.run_all(graphs, k + 1, p.run(graphs[k], 0, mem)) == p.run(graphs[k], 0, mem));
    } else {
        assert(graphs[k] =~= layers);
        assert(p.run_all(graphs, k + 1, mid) == mid);
    }
}

proof fn lemma_logits_frame(d: ModelDesc, c: ChunkShape, mem: Memory)
    ensures
        ({
            let end = chunk_pass(d, c).run(chunk_logits(d, c.n_real as int), 0, mem);
            &&& end[Buffer::Prefill(Slot::X)] == mem[Buffer::Prefill(Slot::X)]
            &&& same_stores(mem, end)
        }),
{
    reveal_with_fuel(Pass::run, 4);
}

/// The graphs of a chunk, submitted in order, compute all layers of the model
/// over its rows, add its keys and values to every store, and where logits are
/// wanted give those of its last real row.
pub proof fn lemma_prefill_graphs(
    m: GpuModel,
    m_pad: usize,
    n_real: usize,
    mode: LogitsMode,
    mem: Memory,
)
    requires
        made_for(m.desc),
        m.desc.wf(),
        m.desc.n_layers > 0,
        m.shape(m_pad as int, n_real as int).wf(m.desc),
        stores_from(mem, 0),
    ensures
        ({
            let (d, scales) = (m.desc, m.scales@);
            let n = d.layer_kinds@.len() as int;
            let x = mem[Buffer::Prefill(Slot::X)];
            let end = chunk_pass(d, m.shape(m_pad as int, n_real as int)).run_all(
                m.graphs(GraphKey::Prefill(m_pad, n_real, mode)),
                0,
                mem,
            );
            let y = layers_term(d, scales, 0, n, x);
            &&& end[Buffer::Prefill(Slot::X)] == y
            &&& stores_added(end, d, scales, 0, n, x)
            &&& mode == LogitsMode::Last ==> end[Buffer::Decode(Slot::Logits)] == logits_term(
                Term::Row(Box::new(y), n_real - 1),
            )
        }),
{
    lemma_segments_run(m, m_pad, n_real, mode, 0, mem[Buffer::Prefill(Slot::X)], mem);
}

/// The graph of a decode step computes all layers of the model over its token,
/// adds its keys and values to every store, and gives its logits.
pub proof fn lemma_decode_graphs(m: GpuModel, mem: Memory)
    requires
        made_for(m.desc),
        m.desc.wf(),
        stores_from(mem, 0),
    ensures
        ({
            let (d, scales) = (m.desc, m.scales@);
            let n = d.layer_kinds@.len() as int;
            let x = mem[Buffer::Decode(Slot::X)];
            let end = token_pass(d).run_all(m.graphs(GraphKey::Decode), 0, mem);
            &&& end[Buffer::Decode(Slot::Logits)] == logits_term(layers_term(d, scales, 0, n, x))
            &&& stores_added(end, d, scales, 0, n, x)
        }),
{
    let (d, scales) = (m.desc, m.scales@);
    let n = d.n_layers as int;
    let p = token_pass(d);
    let layers = decode_layers(d, scales, 0, n);
    lemma_decode_layers(d, scales, 0, n, mem);
    lemma_joined(p, layers, decode_logits(d), 0, mem);
    let mid = p.run(layers, 0, mem);
    lemma_decode_logits(d, mid);
    assert(same_stores(mid, p.run(decode_logits(d), 0, mid))) by {
        reveal_with_fuel(Pass::run, 4);
    }
    let graphs = m.graphs(GraphKey::Decode);
    assert(p.run_all(graphs, 1, p.run(graphs[0], 0, mem)) == p.run(graphs[0], 0, mem));
}

/// The logits of every row: the final norm goes over all rows, and each row of
/// a batch is multiplied on its own, from its own place in the normalized rows
/// to its own place among the logits.
pub proof fn lemma_row_graphs(
    m: GpuModel,
    m_pad: usize,
    n_real: usize,
    start: usize,
    len: usize,
    k: int,
    mem: Memory,
)
    requires
        made_for(m.desc),
        m.desc.wf(),
        0 <= k < len,
        (start + len) * 5376 <= u64::MAX,
        (start + len) * m.desc.vocab_size <= u64::MAX,
    ensures
        ({
            let d = m.desc;
            let end = chunk_pass(d, m.shape(m_pad as int, n_real as int)).run_all(
                m.graphs(GraphKey::NormAll(m_pad)),
                0,
                mem,
            );
            &&& end[Buffer::Prefill(Slot::Xn)] == normed(
                mem[Buffer::Prefill(Slot::X)],
                Weight::OutputNorm,
                5376,
            )
            &&& m.graphs(GraphKey::LogitsBatch(start, len)).len() == 1
            &&& m.graphs(GraphKey::LogitsBatch(start, len))[0].len() == len
            &&& ({
                let s = m.graphs(GraphKey::LogitsBatch(start, len))[0][k];
                let r = start + k;
                &&& s.kernel == Kernel::Logits && s.bindings.len() == 3 && s.push == Push::Nothing
                &&& s.groups == Groups::Exact(d.vocab_size as u32, 1, 1)
                &&& buffer(s, 0) == Buffer::TokenEmbd && s.bindings[0].extent == Extent::Whole
                &&& buffer(s, 1) == Buffer::Prefill(Slot::Xn)
                &&& (s.bindings[1].extent matches Extent::Range(a, b) && a == r * 5376 && b == r
                    * 5376 + 5376)
                &&& buffer(s, 2) == Buffer::LogitsAll
                &&& (s.bindings[2].extent matches Extent::Range(a, b) && a == r * d.vocab_size && b
                    == r * d.vocab_size + d.vocab_size)
            })
        }),
{
    let d = m.desc;
    let r = start + k;
    let v = d.vocab_size as int;
    assert((r + 1) * v == r * v + v && 0 <= r * v && (r + 1) * v <= (start + len) * v)
        by (nonlinear_arith)
        requires
            0 <= r,
            r + 1 <= start + len,
            0 <= v,
    ;
    reveal_with_fuel(Pass::run, 3);
    reveal_with_fuel(Pass::run_all, 3);
}

/// Which models can be held: of the sizes that the kernels are made for, every
/// one that has a kind for each layer and a vocabulary that 32 bits count; and
/// chunks of so many rows that their query heads are counted in 32 bits.
pub proof fn lemma_sizes_held(d: ModelDesc, m: int)
    requires
        made_for(d),
    ensures
        d.wf() <==> d.n_layers == d.layer_kinds@.len() && d.vocab_size <= u32::MAX,
        d.wf() ==> (chunks_fit(d, m) <==> 0 <= m && 32 * m <= u32::MAX),
{
    let (a, b) = (d.sliding.n_kv_heads as int, d.sliding.head_dim as int);
    let (e, f) = (d.global.n_kv_heads as int, d.global.head_dim as int);
    assert(a * b == 4096 && e * f == 2048) by (nonlinear_arith)
        requires
            a == 16,
            b == 256,
            e == 4,
            f == 512,
    ;
    let (ls, lg) = (d.live_pairs(LayerKind::Sliding), d.live_pairs(LayerKind::Global));
    let (ks, kg) = (d.kv_dim(LayerKind::Sliding), d.kv_dim(LayerKind::Global));
    let (qs, qg) = (d.q_dim(LayerKind::Sliding), d.q_dim(LayerKind::Global));
    if d.wf() && 0 <= m && 32 * m <= u32::MAX {
        let v = d.vocab_size as int;
        assert(m * v <= 0xffff_ffff * 0xffff_ffff) by (nonlinear_arith)
            requires
                0 <= m <= 0xffff_ffff,
                0 <= v <= 0xffff_ffff,
        ;
        assert(m * a == 16 * m && m * e == 4 * m && m * 32 * ls == 4096 * m && m * 32 * lg == 2048
            * m && m * a * ls == 2048 * m && m * e * lg == 256 * m) by (nonlinear_arith)
            requires
                a == 16,
                e == 4,
                ls == 128,
                lg == 64,
        ;
        assert(m * qs == 8192 * m && m * qg == 16384 * m && m * ks == 4096 * m && m * kg == 2048
            * m) by (nonlinear_arith)
            requires
                qs == 8192,
                qg == 16384,
                ks == 4096,
                kg == 2048,
        ;
    }
}

/// A kernel that is made for a kind of layer is loaded under the name of that
/// kind, or of the width of its heads.
#[verifier::rlimit(40)]
pub proof fn lemma_kind_names(kind: LayerKind)
    ensures
        ({
            let of = match kind {
                LayerKind::Sliding => "sliding"@,
                LayerKind::Global => "global"@,
            };
            let dim = match kind {
                LayerKind::Sliding => "256"@,
                LayerKind::Global => "512"@,
            };
            let (attend, reduce) = match kind {
                LayerKind::Sliding => (Kernel::AttnSliding, Kernel::Reduce256),
                LayerKind::Global => (Kernel::AttnGlobal, Kernel::Reduce512),
            };
            &&& kernel_name(rope_q(kind)) == "rope_"@ + of + "_q"@
            &&& kernel_name(rope_k(kind)) == "rope_"@ + of + "_k"@
            &&& kernel_name(append(kind)) == "kv_append_"@ + of
            &&& kernel_name(attend) == "attn_decode_"@ + of
            &&& kernel_name(head_norm(kind)) == "rmsnorm_"@ + dim
            &&& kernel_name(reduce) == "attn_reduce_d"@ + dim
        }),
        kernel_name(Kernel::Rms5376) == "rmsnorm_"@ + "5376"@,
        kernel_name(Kernel::PrefillSliding) == "attn_prefill_sliding_ring"@,
        kernel_name(Kernel::PrefillGlobal) == "attn_prefill_global"@,
        kernel_name(Kernel::Geglu) == "geglu"@,
        kernel_name(Kernel::AddScaled) == "add_scaled"@,
        kernel_name(Kernel::Logits) == "gemv_q6_k_logits"@,
        kernel_name(Kernel::QuantQ8) == "kv_quant_q8"@,
        kernel_name(Kernel::Touch) == "touch"@,
{
    reveal_strlit("rope_");
    reveal_strlit("_q");
    reveal_strlit("_k");
    reveal_strlit("kv_append_");
    reveal_strlit("attn_decode_");
    reveal_strlit("sliding");
    reveal_strlit("global");
    reveal_strlit("rope_sliding_q");
    reveal_strlit("rope_sliding_k");
    reveal_strlit("rope_global_q");
    reveal_strlit("rope_global_k");
    reveal_strlit("kv_append_sliding");
    reveal_strlit("kv_append_global");
    reveal_strlit("attn_decode_sliding");
    reveal_strlit("attn_decode_global");
    reveal_strlit("rmsnorm_");
    reveal_strlit("rmsnorm_256");
    reveal_strlit("rmsnorm_512");
    reveal_strlit("rmsnorm_5376");
    reveal_strlit("attn_reduce_d");
    reveal_strlit("attn_reduce_d256");
    reveal_strlit("attn_reduce_d512");
    reveal_strlit("256");
    reveal_strlit("512");
    reveal_strlit("5376");
    assert(kernel_name(Kernel::RopeSlidingQ) =~= "rope_"@ + "sliding"@ + "_q"@);
    assert(kernel_name(Kernel::RopeSlidingK) =~= "rope_"@ + "sliding"@ + "_k"@);
    assert(kernel_name(Kernel::RopeGlobalQ) =~= "rope_"@ + "global"@ + "_q"@);
    assert(kernel_name(Kernel::RopeGlobalK) =~= "rope_"@ + "global"@ + "_k"@);
    assert(kernel_name(Kernel::AppendSliding) =~= "kv_append_"@ + "sliding"@);
    assert(kernel_name(Kernel::AppendGlobal) =~= "kv_append_"@ + "global"@);
    assert(kernel_name(Kernel::AttnSliding) =~= "attn_decode_"@ + "sliding"@);
    assert(kernel_name(Kernel::AttnGlobal) =~= "attn_decode_"@ + "global"@);
    assert(kernel_name(Kernel::Rms256) =~= "rmsnorm_"@ + "256"@);
    assert(kernel_name(Kernel::Rms512) =~= "rmsnorm_"@ + "512"@);
    assert(kernel_name(Kernel::Rms5376) =~= "rmsnorm_"@ + "5376"@);
    assert(kernel_name(Kernel::Reduce256) =~= "attn_reduce_d"@ + "256"@);
    assert(kernel_name(Kernel::Reduce512) =~= "attn_reduce_d"@ + "512"@);
}

} // verus!
