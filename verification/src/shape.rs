//! The shape of the model: layer kinds, head geometry, and the sizes that
//! follow from them.

use vstd::prelude::*;

verus! {

/// Width of the residual stream.
pub const HIDDEN: usize = 5376;

/// Width of the feed-forward block.
pub const FFN: usize = 21504;

/// Query heads of every layer.
pub const Q_HEADS: usize = 32;

/// How a layer attends.
#[derive(Debug, Clone, Copy, PartialEq, Eq, Hash, Structural)]
pub enum LayerKind {
    /// Within a window, from a ring of slots.
    Sliding,
    /// To everything before, from a linear store.
    Global,
}

/// Head geometry of one layer kind.
#[derive(Debug, Clone, Copy, PartialEq, Eq, Structural)]
pub struct Geometry {
    pub head_dim: usize,
    pub n_kv_heads: usize,
}

/// The sizes of a model.
#[derive(Debug)]
pub struct ModelDesc {
    pub n_layers: usize,
    pub layer_kinds: Vec<LayerKind>,
    pub sliding: Geometry,
    pub global: Geometry,
    pub sliding_window: usize,
    pub vocab_size: usize,
    pub hidden_size: usize,
    pub ffn_size: usize,
    pub n_q_heads: usize,
}

impl ModelDesc {
    pub open spec fn geometry(self, kind: LayerKind) -> Geometry {
        match kind {
            LayerKind::Sliding => self.sliding,
            LayerKind::Global => self.global,
        }
    }

    /// Width of the queries of a layer.
    pub open spec fn q_dim(self, kind: LayerKind) -> int {
        32 * self.geometry(kind).head_dim
    }

    /// Width of the keys, and of the values, of a layer.
    pub open spec fn kv_dim(self, kind: LayerKind) -> int {
        self.geometry(kind).n_kv_heads * self.geometry(kind).head_dim
    }

    /// Rotation pairs per head that turn: all of them in a sliding layer, the
    /// first quarter in a global one.
    pub open spec fn live_pairs(self, kind: LayerKind) -> int {
        match kind {
            LayerKind::Sliding => self.sliding.head_dim as int / 2,
            LayerKind::Global => self.global.head_dim as int / 8,
        }
    }

    /// Every layer has a kind, and the widths fit the machine words that they
    /// are handed to the device in.
    pub open spec fn wf(self) -> bool {
        &&& self.n_layers == self.layer_kinds@.len()
        &&& self.q_dim(LayerKind::Sliding) <= u32::MAX
        &&& self.q_dim(LayerKind::Global) <= u32::MAX
        &&& self.kv_dim(LayerKind::Sliding) <= u32::MAX
        &&& self.kv_dim(LayerKind::Global) <= u32::MAX
        &&& self.sliding.n_kv_heads <= u32::MAX
        &&& self.global.n_kv_heads <= u32::MAX
        &&& self.vocab_size <= u32::MAX
    }

    /// Whether every layer has a kind and the widths fit.
    pub fn valid(&self) -> (r: bool)
        ensures
            r == self.wf(),
    {
        let word: u128 = 0xffff_ffff;
        let (hs, hg): (u128, u128) = (self.sliding.head_dim as u128, self.global.head_dim as u128);
        let (ns, ng): (u128, u128) = (
            self.sliding.n_kv_heads as u128,
            self.global.n_kv_heads as u128,
        );
        assert(ns * hs <= u128::MAX && ng * hg <= u128::MAX) by (nonlinear_arith)
            requires
                0 <= ns <= u64::MAX,
                0 <= hs <= u64::MAX,
                0 <= ng <= u64::MAX,
                0 <= hg <= u64::MAX,
        ;
        self.n_layers == self.layer_kinds.len() && 32 * hs <= word && 32 * hg <= word && ns * hs
            <= word && ng * hg <= word && ns <= word && ng <= word && self.vocab_size as u128
            <= word
    }

    pub fn head_dim(&self, kind: LayerKind) -> (n: usize)
        ensures
            n == self.geometry(kind).head_dim,
    {
        match kind {
            LayerKind::Sliding => self.sliding.head_dim,
            LayerKind::Global => self.global.head_dim,
        }
    }

    pub fn n_kv_heads(&self, kind: LayerKind) -> (n: usize)
        ensures
            n == self.geometry(kind).n_kv_heads,
    {
        match kind {
            LayerKind::Sliding => self.sliding.n_kv_heads,
            LayerKind::Global => self.global.n_kv_heads,
        }
    }

    /// Width of the queries of a layer.
    pub fn query_width(&self, kind: LayerKind) -> (n: u32)
        requires
            self.wf(),
        ensures
            n == self.q_dim(kind),
    {
        (32 * (self.head_dim(kind) as u64)) as u32
    }

    /// Width of the keys, and of the values, of a layer.
    pub fn kv_width(&self, kind: LayerKind) -> (n: u32)
        requires
            self.wf(),
        ensures
            n == self.kv_dim(kind),
    {
        let a: u64 = self.n_kv_heads(kind) as u64;
        let b: u64 = self.head_dim(kind) as u64;
        (a * b) as u32
    }

    /// Rotation pairs per head that turn.
    pub fn rope_pairs(&self, kind: LayerKind) -> (n: usize)
        ensures
            n == self.live_pairs(kind),
    {
        match kind {
            LayerKind::Sliding => self.sliding.head_dim / 2,
            LayerKind::Global => self.global.head_dim / 8,
        }
    }
}

/// The least multiple of 64 that is not below `n`.
pub open spec fn padded(n: int) -> int {
    (n + 63) / 64 * 64
}

/// Rows of a chunk of `n` tokens once padded to whole blocks of 64.
pub fn pad_rows(n: usize) -> (m: usize)
    requires
        n + 63 <= usize::MAX,
    ensures
        m == padded(n as int),
        n <= m < n + 64,
        m % 64 == 0,
{
    (n + 63) / 64 * 64
}

} // verus!
