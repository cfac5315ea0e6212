//! The forward pass of the host reference model as data: its operations in
//! order, and the points at which activations are tapped.

use vstd::prelude::*;
use vstd::string::*;

use crate::graph::Slot;
use crate::shape::{LayerKind, ModelDesc};
use crate::stage::tap_slot;
use crate::weights::{has_tensor, Tensor, Weight};

verus! {

/// How the parts of the pass that implementations differ in are read. Floats
/// are held as bits.
#[derive(Debug, Clone, Copy, PartialEq, Eq, Structural)]
pub struct Conventions {
    /// Norms multiply by `1 + w` instead of `w`.
    pub norm_one_plus_w: bool,
    /// Factor of the embedding rows.
    pub embed_scale: u32,
    /// Factor of the attention logits.
    pub attn_scale: u32,
    /// Values are normalized, without weights.
    pub v_norm: bool,
    /// The hidden state is multiplied by a scale at the end of a layer.
    pub layer_output_scale: bool,
}

impl Conventions {
    /// The reading that the model is pinned to; `embed_scale` are the bits of
    /// the square root of the hidden size.
    pub fn pinned(embed_scale: u32) -> (c: Self)
        ensures
            c == (Conventions {
                norm_one_plus_w: false,
                embed_scale,
                attn_scale: 0x3f80_0000,
                v_norm: true,
                layer_output_scale: true,
            }),
    {
        Conventions {
            norm_one_plus_w: false,
            embed_scale,
            attn_scale: 0x3f80_0000,
            v_norm: true,
            layer_output_scale: true,
        }
    }
}

/// The activations of the pass, each a row per token.
#[derive(Debug, Clone, Copy, PartialEq, Eq, Structural)]
pub enum Value {
    X,
    Xn,
    Q,
    K,
    V,
    Attn,
    O,
    FfnIn,
    Gate,
    Up,
    F,
    Logits,
}

/// The points at which activations are tapped.
#[derive(Debug, Clone, Copy, PartialEq, Eq, Structural)]
pub enum Tap {
    Embed,
    AttnNorm,
    QRope,
    KRope,
    VNorm,
    AttnOut,
    PostAttnNorm,
    HAttn,
    FfnNorm,
    FfnOut,
    PostFfnNorm,
    LayerOut,
    FinalNorm,
    Logits,
}

/// The name of a tap.
pub open spec fn tap_name(t: Tap) -> Seq<char> {
    match t {
        Tap::Embed => "embed"@,
        Tap::AttnNorm => "attn_norm"@,
        Tap::QRope => "q_rope"@,
        Tap::KRope => "k_rope"@,
        Tap::VNorm => "v_norm"@,
        Tap::AttnOut => "attn_out"@,
        Tap::PostAttnNorm => "post_attn_norm"@,
        Tap::HAttn => "h_attn"@,
        Tap::FfnNorm => "ffn_norm"@,
        Tap::FfnOut => "ffn_out"@,
        Tap::PostFfnNorm => "post_ffn_norm"@,
        Tap::LayerOut => "layer_out"@,
        Tap::FinalNorm => "final_norm"@,
        Tap::Logits => "logits"@,
    }
}

impl Tap {
    /// The name of the tap.
    pub fn name(self) -> (s: &'static str)
        ensures
            s@ == tap_name(self),
    {
        match self {
            Tap::Embed => "embed",
            Tap::AttnNorm => "attn_norm",
            Tap::QRope => "q_rope",
            Tap::KRope => "k_rope",
            Tap::VNorm => "v_norm",
            Tap::AttnOut => "attn_out",
            Tap::PostAttnNorm => "post_attn_norm",
            Tap::HAttn => "h_attn",
            Tap::FfnNorm => "ffn_norm",
            Tap::FfnOut => "ffn_out",
            Tap::PostFfnNorm => "post_ffn_norm",
            Tap::LayerOut => "layer_out",
            Tap::FinalNorm => "final_norm",
            Tap::Logits => "logits",
        }
    }
}

/// One operation over all tokens of a pass.
#[derive(Debug, Clone, Copy, PartialEq, Eq)]
pub enum Op {
    /// Embedding rows, scaled, into `X`.
    Embed,
    /// `to = from`.
    Copy { from: Value, to: Value },
    /// Every row normalized in place.
    NormRows { x: Value, weight: Weight },
    /// `y = W x`.
    MatMul { weight: Weight, n_in: usize, n_out: usize, x: Value, y: Value },
    /// Every head normalized in place, with or without a weight.
    NormHeads { x: Value, heads: usize, dim: usize, weight: Option<Weight> },
    /// Every head rotated to the position of its token.
    Rope { x: Value, heads: usize, dim: usize, kind: LayerKind },
    /// `K` and `V` appended to the cache of a layer.
    Append(usize),
    /// `Attn` from `Q` and the cache of a layer.
    Attend { layer: usize, n_kv: usize, dim: usize, window: Option<usize> },
    /// `X += x`.
    AddTo(Value),
    /// `Gate = gelu(Gate) · Up`.
    Geglu,
    /// `X` times the first element of a tensor.
    Scale(Weight),
    /// The tokens counted in the cache.
    Advance,
    /// The soft cap on `Logits`.
    Softcap,
    /// A tapped activation; before and behind the layers without a layer.
    Tap { point: Tap, layer: Option<usize>, x: Value },
}

pub open spec fn tapped(point: Tap, i: usize, x: Value) -> Op {
    Op::Tap { point, layer: Some(i), x }
}

pub open spec fn product(i: usize, t: Tensor, n_in: int, n_out: int, x: Value, y: Value) -> Op {
    Op::MatMul { weight: Weight::Layer(i, t), n_in: n_in as usize, n_out: n_out as usize, x, y }
}

/// Width of the queries.
pub open spec fn query_dim(d: ModelDesc, kind: LayerKind) -> int {
    d.n_q_heads * d.geometry(kind).head_dim
}

/// The queries, keys and values of layer `i`.
pub open spec fn qkv_ops(d: ModelDesc, c: Conventions, i: usize, kind: LayerKind) -> Seq<Op> {
    let hd = d.geometry(kind).head_dim;
    let n_kv = d.geometry(kind).n_kv_heads;
    let hidden = d.hidden_size as int;
    let kv = d.kv_dim(kind);
    let head = seq![
        Op::Copy { from: Value::X, to: Value::Xn },
        Op::NormRows { x: Value::Xn, weight: Weight::Layer(i, Tensor::AttnNorm) },
        tapped(Tap::AttnNorm, i, Value::Xn),
        product(i, Tensor::AttnQ, hidden, query_dim(d, kind), Value::Xn, Value::Q),
        Op::NormHeads {
            x: Value::Q,
            heads: d.n_q_heads,
            dim: hd,
            weight: Some(Weight::Layer(i, Tensor::AttnQNorm)),
        },
        Op::Rope { x: Value::Q, heads: d.n_q_heads, dim: hd, kind },
        tapped(Tap::QRope, i, Value::Q),
        product(i, Tensor::AttnK, hidden, kv, Value::Xn, Value::K),
        match kind {
            LayerKind::Sliding => product(i, Tensor::AttnV, hidden, kv, Value::Xn, Value::V),
            LayerKind::Global => Op::Copy { from: Value::K, to: Value::V },
        },
        Op::NormHeads {
            x: Value::K,
            heads: n_kv,
            dim: hd,
            weight: Some(Weight::Layer(i, Tensor::AttnKNorm)),
        },
        Op::Rope { x: Value::K, heads: n_kv, dim: hd, kind },
        tapped(Tap::KRope, i, Value::K),
    ];
    (if c.v_norm {
        head.push(Op::NormHeads { x: Value::V, heads: n_kv, dim: hd, weight: None })
    } else {
        head
    }).push(tapped(Tap::VNorm, i, Value::V))
}

/// The attention of layer `i` and its output.
pub open spec fn attention_ops(d: ModelDesc, i: usize, kind: LayerKind) -> Seq<Op> {
    seq![
        Op::Append(i),
        Op::Attend {
            layer: i,
            n_kv: d.geometry(kind).n_kv_heads,
            dim: d.geometry(kind).head_dim,
            window: match kind {
                LayerKind::Sliding => Some(d.sliding_window),
                LayerKind::Global => None,
            },
        },
        product(
            i,
            Tensor::AttnOutput,
            query_dim(d, kind),
            d.hidden_size as int,
            Value::Attn,
            Value::O,
        ),
        tapped(Tap::AttnOut, i, Value::O),
        Op::NormRows { x: Value::O, weight: Weight::Layer(i, Tensor::PostAttentionNorm) },
        tapped(Tap::PostAttnNorm, i, Value::O),
        Op::AddTo(Value::O),
        tapped(Tap::HAttn, i, Value::X),
    ]
}

/// The feed-forward block of layer `i`.
pub open spec fn ffn_ops(d: ModelDesc, c: Conventions, i: usize) -> Seq<Op> {
    let hidden = d.hidden_size as int;
    let ffn = d.ffn_size as int;
    let head = seq![
        Op::Copy { from: Value::X, to: Value::FfnIn },
        Op::NormRows { x: Value::FfnIn, weight: Weight::Layer(i, Tensor::FfnNorm) },
        tapped(Tap::FfnNorm, i, Value::FfnIn),
        product(i, Tensor::FfnGate, hidden, ffn, Value::FfnIn, Value::Gate),
        product(i, Tensor::FfnUp, hidden, ffn, Value::FfnIn, Value::Up),
        Op::Geglu,
        product(i, Tensor::FfnDown, ffn, hidden, Value::Gate, Value::F),
        tapped(Tap::FfnOut, i, Value::F),
        Op::NormRows { x: Value::F, weight: Weight::Layer(i, Tensor::PostFfwNorm) },
        tapped(Tap::PostFfnNorm, i, Value::F),
        Op::AddTo(Value::F),
    ];
    (if c.layer_output_scale {
        head.push(Op::Scale(Weight::Layer(i, Tensor::LayerOutputScale)))
    } else {
        head
    }).push(tapped(Tap::LayerOut, i, Value::X))
}

/// Layer `i`.
pub open spec fn layer_ops(d: ModelDesc, c: Conventions, i: usize) -> Seq<Op> {
    let kind = d.layer_kinds@[i as int];
    qkv_ops(d, c, i, kind) + attention_ops(d, i, kind) + ffn_ops(d, c, i)
}

/// The first `n` layers.
pub open spec fn layers_ops(d: ModelDesc, c: Conventions, n: nat) -> Seq<Op>
    decreases n,
{
    if n == 0 {
        Seq::empty()
    } else {
        layers_ops(d, c, (n - 1) as nat) + layer_ops(d, c, (n - 1) as usize)
    }
}

/// What stands before the layers.
pub open spec fn opening_ops() -> Seq<Op> {
    seq![Op::Embed, Op::Tap { point: Tap::Embed, layer: None, x: Value::X }]
}

/// What stands behind the layers: the final norm and the tied LM head.
pub open spec fn closing_ops(d: ModelDesc) -> Seq<Op> {
    seq![
        Op::Advance,
        Op::NormRows { x: Value::X, weight: Weight::OutputNorm },
        Op::Tap { point: Tap::FinalNorm, layer: None, x: Value::X },
        Op::MatMul {
            weight: Weight::TokenEmbd,
            n_in: d.hidden_size,
            n_out: d.vocab_size,
            x: Value::X,
            y: Value::Logits,
        },
        Op::Softcap,
        Op::Tap { point: Tap::Logits, layer: None, x: Value::Logits },
    ]
}

/// The whole pass.
pub open spec fn forward_ops(d: ModelDesc, c: Conventions) -> Seq<Op> {
    opening_ops() + layers_ops(d, c, d.layer_kinds@.len()) + closing_ops(d)
}

/// The widths of the pass fit machine words.
pub open spec fn widths_fit(d: ModelDesc) -> bool {
    &&& d.wf()
    &&& query_dim(d, LayerKind::Sliding) <= usize::MAX
    &&& query_dim(d, LayerKind::Global) <= usize::MAX
}

/// Whether the widths of the pass fit machine words.
pub fn widths(d: &ModelDesc) -> (r: bool)
    ensures
        r == widths_fit(*d),
{
    let q: u128 = d.n_q_heads as u128;
    let (hs, hg): (u128, u128) = (d.sliding.head_dim as u128, d.global.head_dim as u128);
    assert(q * hs <= u128::MAX && q * hg <= u128::MAX) by (nonlinear_arith)
        requires
            0 <= q <= u64::MAX,
            0 <= hs <= u64::MAX,
            0 <= hg <= u64::MAX,
    ;
    d.valid() && q * hs <= usize::MAX as u128 && q * hg <= usize::MAX as u128
}

fn push_tap(ops: &mut Vec<Op>, point: Tap, i: usize, x: Value)
    ensures
        final(ops)@ == old(ops)@.push(tapped(point, i, x)),
{
    ops.push(Op::Tap { point, layer: Some(i), x });
}

fn push_product(ops: &mut Vec<Op>, i: usize, t: Tensor, n_in: usize, n_out: usize, x: Value, y: Value)
    ensures
        final(ops)@ == old(ops)@.push(product(i, t, n_in as int, n_out as int, x, y)),
{
    ops.push(Op::MatMul { weight: Weight::Layer(i, t), n_in, n_out, x, y });
}

fn push_qkv(d: &ModelDesc, c: &Conventions, i: usize, kind: LayerKind, ops: &mut Vec<Op>)
    requires
        widths_fit(*d),
    ensures
        final(ops)@ == old(ops)@ + qkv_ops(*d, *c, i, kind),
{
    let ghost had = ops@;
    let hd: usize = d.head_dim(kind);
    let n_kv: usize = d.n_kv_heads(kind);
    let hidden: usize = d.hidden_size;
    let q: usize = d.n_q_heads * hd;
    let kv: usize = d.kv_width(kind) as usize;
    ops.push(Op::Copy { from: Value::X, to: Value::Xn });
    ops.push(Op::NormRows { x: Value::Xn, weight: Weight::Layer(i, Tensor::AttnNorm) });
    push_tap(ops, Tap::AttnNorm, i, Value::Xn);
    push_product(ops, i, Tensor::AttnQ, hidden, q, Value::Xn, Value::Q);
    ops.push(
        Op::NormHeads {
            x: Value::Q,
            heads: d.n_q_heads,
            dim: hd,
            weight: Some(Weight::Layer(i, Tensor::AttnQNorm)),
        },
    );
    ops.push(Op::Rope { x: Value::Q, heads: d.n_q_heads, dim: hd, kind });
    push_tap(ops, Tap::QRope, i, Value::Q);
    push_product(ops, i, Tensor::AttnK, hidden, kv, Value::Xn, Value::K);
    // Global layers share the K projection for V; K and V still diverge
    // through their norms and the rotation.
    match kind {
        LayerKind::Sliding => {
            push_product(ops, i, Tensor::AttnV, hidden, kv, Value::Xn, Value::V);
        },
        LayerKind::Global => {
            ops.push(Op::Copy { from: Value::K, to: Value::V });
        },
    }
    ops.push(
        Op::NormHeads {
            x: Value::K,
            heads: n_kv,
            dim: hd,
            weight: Some(Weight::Layer(i, Tensor::AttnKNorm)),
        },
    );
    ops.push(Op::Rope { x: Value::K, heads: n_kv, dim: hd, kind });
    push_tap(ops, Tap::KRope, i, Value::K);
    if c.v_norm {
        ops.push(Op::NormHeads { x: Value::V, heads: n_kv, dim: hd, weight: None });
    }
    push_tap(ops, Tap::VNorm, i, Value::V);
    assert(ops@ =~= had + qkv_ops(*d, *c, i, kind));
}

fn push_attention(d: &ModelDesc, i: usize, kind: LayerKind, ops: &mut Vec<Op>)
    requires
        widths_fit(*d),
    ensures
        final(ops)@ == old(ops)@ + attention_ops(*d, i, kind),
{
    let ghost had = ops@;
    let hd: usize = d.head_dim(kind);
    let window: Option<usize> = match kind {
        LayerKind::Sliding => Some(d.sliding_window),
        LayerKind::Global => None,
    };
    ops.push(Op::Append(i));
    ops.push(Op::Attend { layer: i, n_kv: d.n_kv_heads(kind), dim: hd, window });
    push_product(
        ops,
        i,
        Tensor::AttnOutput,
        d.n_q_heads * hd,
        d.hidden_size,
        Value::Attn,
        Value::O,
    );
    push_tap(ops, Tap::AttnOut, i, Value::O);
    ops.push(Op::NormRows { x: Value::O, weight: Weight::Layer(i, Tensor::PostAttentionNorm) });
    push_tap(ops, Tap::PostAttnNorm, i, Value::O);
    ops.push(Op::AddTo(Value::O));
    push_tap(ops, Tap::HAttn, i, Value::X);
    assert(ops@ =~= had + attention_ops(*d, i, kind));
}

fn push_ffn(d: &ModelDesc, c: &Conventions, i: usize, ops: &mut Vec<Op>)
    ensures
        final(ops)@ == old(ops)@ + ffn_ops(*d, *c, i),
{
    let ghost had = ops@;
    let hidden: usize = d.hidden_size;
    let ffn: usize = d.ffn_size;
    ops.push(Op::Copy { from: Value::X, to: Value::FfnIn });
    ops.push(Op::NormRows { x: Value::FfnIn, weight: Weight::Layer(i, Tensor::FfnNorm) });
    push_tap(ops, Tap::FfnNorm, i, Value::FfnIn);
    push_product(ops, i, Tensor::FfnGate, hidden, ffn, Value::FfnIn, Value::Gate);
    push_product(ops, i, Tensor::FfnUp, hidden, ffn, Value::FfnIn, Value::Up);
    ops.push(Op::Geglu);
    push_product(ops, i, Tensor::FfnDown, ffn, hidden, Value::Gate, Value::F);
    push_tap(ops, Tap::FfnOut, i, Value::F);
    ops.push(Op::NormRows { x: Value::F, weight: Weight::Layer(i, Tensor::PostFfwNorm) });
    push_tap(ops, Tap::PostFfnNorm, i, Value::F);
    ops.push(Op::AddTo(Value::F));
    if c.layer_output_scale {
        ops.push(Op::Scale(Weight::Layer(i, Tensor::LayerOutputScale)));
    }
    push_tap(ops, Tap::LayerOut, i, Value::X);
    assert(ops@ =~= had + ffn_ops(*d, *c, i));
}

/// The operations of a forward pass.
pub fn forward(d: &ModelDesc, c: &Conventions) -> (ops: Vec<Op>)
    requires
        widths_fit(*d),
    ensures
        ops@ == forward_ops(*d, *c),
{
    let mut ops: Vec<Op> = vec![
        Op::Embed,
        Op::Tap { point: Tap::Embed, layer: None, x: Value::X },
    ];
    assert(ops@ =~= opening_ops() + layers_ops(*d, *c, 0));
    let mut i: usize = 0;
    while i < d.layer_kinds.len()
        invariant
            widths_fit(*d),
            i <= d.layer_kinds@.len(),
            ops@ == opening_ops() + layers_ops(*d, *c, i as nat),
        decreases d.layer_kinds@.len() - i,
    {
        let kind = d.layer_kinds[i];
        push_qkv(d, c, i, kind, &mut ops);
        push_attention(d, i, kind, &mut ops);
        push_ffn(d, c, i, &mut ops);
        i = i + 1;
        assert(ops@ =~= opening_ops() + layers_ops(*d, *c, i as nat));
    }
    ops.push(Op::Advance);
    ops.push(Op::NormRows { x: Value::X, weight: Weight::OutputNorm });
    ops.push(Op::Tap { point: Tap::FinalNorm, layer: None, x: Value::X });
    ops.push(
        Op::MatMul {
            weight: Weight::TokenEmbd,
            n_in: d.hidden_size,
            n_out: d.vocab_size,
            x: Value::X,
            y: Value::Logits,
        },
    );
    ops.push(Op::Softcap);
    ops.push(Op::Tap { point: Tap::Logits, layer: None, x: Value::Logits });
    assert(ops@ =~= forward_ops(*d, *c));
    ops
}

/// Width of an activation in a layer of a kind.
pub open spec fn width(d: ModelDesc, kind: LayerKind, x: Value) -> int {
    match x {
        Value::X | Value::Xn | Value::O | Value::FfnIn | Value::F => d.hidden_size as int,
        Value::Q | Value::Attn => query_dim(d, kind),
        Value::K | Value::V => d.kv_dim(kind),
        Value::Gate | Value::Up => d.ffn_size as int,
        Value::Logits => d.vocab_size as int,
    }
}

/// A matrix product takes and gives rows of the right width, copies keep it,
/// and heads fill their rows; the tensors are those that the layer has.
pub open spec fn op_fits(d: ModelDesc, kind: LayerKind, op: Op) -> bool {
    match op {
        Op::MatMul { weight, n_in, n_out, x, y } => n_in == width(d, kind, x) && n_out == width(
            d,
            kind,
            y,
        ) && weight_fits(kind, weight),
        Op::Copy { from, to } => width(d, kind, from) == width(d, kind, to),
        Op::NormHeads { x, heads, dim, weight } => heads * dim == width(d, kind, x) && (
        weight matches Some(w) ==> weight_fits(kind, w)),
        Op::Rope { x, heads, dim, kind: k } => heads * dim == width(d, kind, x) && k == kind,
        Op::NormRows { x, weight } => width(d, kind, x) == d.hidden_size && weight_fits(
            kind,
            weight,
        ),
        Op::AddTo(x) => width(d, kind, x) == width(d, kind, Value::X),
        _ => true,
    }
}

pub open spec fn weight_fits(kind: LayerKind, w: Weight) -> bool {
    match w {
        Weight::Layer(_, t) => has_tensor(kind, t),
        _ => true,
    }
}

/// Every operation of a layer meets rows of the width that it is made for, and
/// tensors that the layer has.
pub proof fn lemma_layer_fits(d: ModelDesc, c: Conventions, i: usize, k: int)
    requires
        widths_fit(d),
        i < d.layer_kinds@.len(),
        0 <= k < layer_ops(d, c, i).len(),
    ensures
        op_fits(d, d.layer_kinds@[i as int], layer_ops(d, c, i)[k]),
{
    let kind = d.layer_kinds@[i as int];
    let a = qkv_ops(d, c, i, kind);
    let b = attention_ops(d, i, kind);
    lemma_kv_width(d, kind);
    if k < a.len() {
        assert(layer_ops(d, c, i)[k] == a[k]);
    } else if k < a.len() + b.len() {
        assert(layer_ops(d, c, i)[k] == b[k - a.len()]);
    } else {
        assert(layer_ops(d, c, i)[k] == ffn_ops(d, c, i)[k - a.len() - b.len()]);
    }
}

proof fn lemma_kv_width(d: ModelDesc, kind: LayerKind)
    requires
        d.wf(),
    ensures
        0 <= d.kv_dim(kind) <= u32::MAX,
        0 <= query_dim(d, kind),
{
    let (a, b, q) = (
        d.geometry(kind).n_kv_heads as int,
        d.geometry(kind).head_dim as int,
        d.n_q_heads as int,
    );
    assert(0 <= a * b && 0 <= q * b) by (nonlinear_arith)
        requires
            a >= 0,
            b >= 0,
            q >= 0,
    ;
}

/// The taps among the operations from `i` on, in order.
pub open spec fn taps_from(ops: Seq<Op>, i: int) -> Seq<(Tap, Option<usize>)>
    decreases ops.len() - i,
{
    if i < 0 || i >= ops.len() {
        Seq::empty()
    } else {
        match ops[i] {
            Op::Tap { point, layer, x } => seq![(point, layer)] + taps_from(ops, i + 1),
            _ => taps_from(ops, i + 1),
        }
    }
}

proof fn lemma_taps_behind(a: Seq<Op>, b: Seq<Op>, i: int)
    requires
        0 <= i <= b.len(),
    ensures
        taps_from(a + b, a.len() + i) == taps_from(b, i),
    decreases b.len() - i,
{
    if i < b.len() {
        assert((a + b)[a.len() + i] == b[i]);
        lemma_taps_behind(a, b, i + 1);
    }
}

proof fn lemma_taps_joined(a: Seq<Op>, b: Seq<Op>, i: int)
    requires
        0 <= i <= a.len(),
    ensures
        taps_from(a + b, i) == taps_from(a, i) + taps_from(b, 0),
    decreases a.len() - i,
{
    if i < a.len() {
        assert((a + b)[i] == a[i]);
        lemma_taps_joined(a, b, i + 1);
        assert(taps_from(a + b, i) =~= taps_from(a, i) + taps_from(b, 0));
    } else {
        lemma_taps_behind(a, b, 0);
        assert(taps_from(a + b, i) =~= taps_from(a, i) + taps_from(b, 0));
    }
}

/// The taps of layer `i`.
pub open spec fn layer_taps(i: usize) -> Seq<(Tap, Option<usize>)> {
    seq![
        (Tap::AttnNorm, Some(i)),
        (Tap::QRope, Some(i)),
        (Tap::KRope, Some(i)),
        (Tap::VNorm, Some(i)),
        (Tap::AttnOut, Some(i)),
        (Tap::PostAttnNorm, Some(i)),
        (Tap::HAttn, Some(i)),
        (Tap::FfnNorm, Some(i)),
        (Tap::FfnOut, Some(i)),
        (Tap::PostFfnNorm, Some(i)),
        (Tap::LayerOut, Some(i)),
    ]
}

proof fn lemma_part_taps(d: ModelDesc, c: Conventions, i: usize, kind: LayerKind)
    ensures
        taps_from(qkv_ops(d, c, i, kind), 0) == layer_taps(i).subrange(0, 4),
        taps_from(attention_ops(d, i, kind), 0) == layer_taps(i).subrange(4, 7),
        taps_from(ffn_ops(d, c, i), 0) == layer_taps(i).subrange(7, 11),
{
    assert(taps_from(qkv_ops(d, c, i, kind), 0) =~= layer_taps(i).subrange(0, 4)) by {
        reveal_with_fuel(taps_from, 16);
    }
    assert(taps_from(attention_ops(d, i, kind), 0) =~= layer_taps(i).subrange(4, 7)) by {
        reveal_with_fuel(taps_from, 10);
    }
    assert(taps_from(ffn_ops(d, c, i), 0) =~= layer_taps(i).subrange(7, 11)) by {
        reveal_with_fuel(taps_from, 15);
    }
}

/// Every layer is tapped at the same points in the same order, whatever its
/// kind and whatever the conventions.
pub proof fn lemma_layer_taps(d: ModelDesc, c: Conventions, i: usize)
    ensures
        taps_from(layer_ops(d, c, i), 0) == layer_taps(i),
{
    let kind = d.layer_kinds@[i as int];
    let a = qkv_ops(d, c, i, kind);
    let b = attention_ops(d, i, kind);
    let e = ffn_ops(d, c, i);
    lemma_part_taps(d, c, i, kind);
    lemma_taps_joined(a, b, 0);
    lemma_taps_joined(a + b, e, 0);
    assert(layer_taps(i).subrange(0, 4) + layer_taps(i).subrange(4, 7) + layer_taps(i).subrange(
        7,
        11,
    ) =~= layer_taps(i));
}

/// The activation of the device graph behind a tap of a layer.
pub open spec fn device_slot(t: Tap, kind: LayerKind) -> Option<Slot> {
    match t {
        Tap::AttnNorm => Some(Slot::Xn),
        Tap::QRope => Some(Slot::Q(kind)),
        Tap::KRope => Some(Slot::K(kind)),
        Tap::VNorm => Some(Slot::V(kind)),
        Tap::AttnOut => Some(Slot::O),
        Tap::PostAttnNorm => Some(Slot::On),
        Tap::HAttn => Some(Slot::X2),
        Tap::FfnNorm => Some(Slot::Fin),
        Tap::FfnOut => Some(Slot::F),
        Tap::PostFfnNorm => Some(Slot::Fn2),
        Tap::LayerOut => Some(Slot::X),
        Tap::Embed | Tap::FinalNorm | Tap::Logits => None,
    }
}

/// Tap names match: under the name of each tap of a layer the device graph
/// gives the activation of the same stage.
pub proof fn lemma_tap_names_match(t: Tap, kind: LayerKind)
    ensures
        tap_slot(tap_name(t), kind) == device_slot(t, kind),
{
    reveal_strlit("attn_norm");
    reveal_strlit("q_rope");
    reveal_strlit("k_rope");
    reveal_strlit("v_norm");
    reveal_strlit("attn");
    reveal_strlit("attn_out");
    reveal_strlit("post_attn_norm");
    reveal_strlit("h_attn");
    reveal_strlit("ffn_norm");
    reveal_strlit("ffn_out");
    reveal_strlit("post_ffn_norm");
    reveal_strlit("layer_out");
    reveal_strlit("embed");
    reveal_strlit("final_norm");
    reveal_strlit("logits");
    assert({
        &&& "attn_norm"@.len() == 9
        &&& "q_rope"@.len() == 6
        &&& "k_rope"@.len() == 6
        &&& "v_norm"@.len() == 6
        &&& "attn"@.len() == 4
        &&& "attn_out"@.len() == 8
        &&& "post_attn_norm"@.len() == 14
        &&& "h_attn"@.len() == 6
        &&& "ffn_norm"@.len() == 8
        &&& "ffn_out"@.len() == 7
        &&& "post_ffn_norm"@.len() == 13
        &&& "layer_out"@.len() == 9
        &&& "embed"@.len() == 5
        &&& "final_norm"@.len() == 10
        &&& "logits"@.len() == 6
    });
    assert("attn_norm"@[0] == 'a' && "layer_out"@[0] == 'l');
    assert("attn_out"@[0] == 'a' && "ffn_norm"@[0] == 'f');
    assert({
        &&& "q_rope"@[0] == 'q'
        &&& "k_rope"@[0] == 'k'
        &&& "v_norm"@[0] == 'v'
        &&& "h_attn"@[0] == 'h'
        &&& "logits"@[0] == 'l'
    });
}

} // verus!
