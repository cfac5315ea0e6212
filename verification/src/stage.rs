//! What the host writes between submissions, the sizes of the buffers that it
//! allocates, and the activations that can be read back by name.

use vstd::prelude::*;
use vstd::string::*;

use crate::graph::{splits, Slot, SPLITS_GLOBAL, SPLITS_SLIDING};
use crate::reference::visible_from;
use crate::shape::{LayerKind, ModelDesc, FFN, HIDDEN};
use crate::text::same_text;

verus! {

/// The words of the step buffer, rewritten before every submission.
#[derive(Debug, Clone, Copy, PartialEq, Eq, Structural)]
pub struct StepState {
    pub pos: u32,
    pub kv_len_sliding: u32,
    pub kv_len_global: u32,
    pub q0: u32,
}

/// The step of one token at `pos`: it sees itself and everything before, in a
/// sliding layer no more than the window.
pub fn decode_step_state(pos: u32, window: u32) -> (s: StepState)
    requires
        pos < u32::MAX,
    ensures
        s.pos == pos,
        s.kv_len_sliding == (if pos + 1 < window {
            pos + 1
        } else {
            window as int
        }),
        s.kv_len_global == pos + 1,
        s.q0 == 0,
        window > 0 ==> s.kv_len_sliding == pos + 1 - visible_from(Some(window as usize), pos as int),
        s.kv_len_global == pos + 1 - visible_from(None, pos as int),
{
    let kv_len_sliding: u32 = if pos + 1 < window {
        pos + 1
    } else {
        window
    };
    StepState { pos, kv_len_sliding, kv_len_global: pos + 1, q0: 0 }
}

/// The step of a chunk that starts at `pos`; its kernels read no lengths.
pub fn prefill_step_state(pos: u32) -> (s: StepState)
    ensures
        s == (StepState { pos, kv_len_sliding: 0, kv_len_global: 0, q0: pos }),
{
    StepState { pos, kv_len_sliding: 0, kv_len_global: 0, q0: pos }
}

/// The positions of `n` tokens from `pos` on.
pub fn chunk_positions(pos: u32, n: u32) -> (positions: Vec<u32>)
    requires
        pos + n <= u32::MAX,
    ensures
        positions@ == Seq::new(n as nat, |i: int| (pos + i) as u32),
{
    let mut positions: Vec<u32> = Vec::new();
    let mut i: u32 = 0;
    while i < n
        invariant
            i <= n,
            pos + n <= u32::MAX,
            positions@ == Seq::new(i as nat, |i: int| (pos + i) as u32),
        decreases n - i,
    {
        positions.push(pos + i);
        i = i + 1;
        assert(positions@ =~= Seq::new(i as nat, |i: int| (pos + i) as u32));
    }
    positions
}

/// The first `live` elements of each of the first `n` rows of `full` elements.
pub open spec fn row_prefixes<T>(table: Seq<T>, full: int, live: int, n: nat) -> Seq<T>
    decreases n,
{
    if n == 0 {
        Seq::empty()
    } else {
        row_prefixes(table, full, live, (n - 1) as nat) + table.subrange(
            (n - 1) * full,
            (n - 1) * full + live,
        )
    }
}

/// Keeps the live part of every whole row of a rotation table.
pub fn live_prefixes<T: Copy>(table: &[T], full: usize, live: usize) -> (kept: Vec<T>)
    requires
        0 < full,
        live <= full,
    ensures
        kept@ == row_prefixes(
            table@,
            full as int,
            live as int,
            (table@.len() / full as nat) as nat,
        ),
{
    let rows: usize = table.len() / full;
    let ghost f = full as int;
    let mut kept: Vec<T> = Vec::new();
    let mut r: usize = 0;
    let mut at: usize = 0;
    assert(rows * f <= table@.len()) by {
        vstd::arithmetic::div_mod::lemma_fundamental_div_mod(table@.len() as int, f);
        assert(f * rows == rows * f) by (nonlinear_arith);
    }
    assert(0 * f == 0) by (nonlinear_arith);
    while r < rows
        invariant
            f == full,
            live <= full,
            r <= rows,
            at == r * f,
            rows * f <= table@.len() <= usize::MAX,
            kept@ == row_prefixes(table@, f, live as int, r as nat),
        decreases rows - r,
    {
        let ghost had = kept@;
        assert((r + 1) * f == r * f + f && (r + 1) * f <= rows * f) by (nonlinear_arith)
            requires
                r + 1 <= rows,
                f > 0 || f == 0,
        ;
        let mut i: usize = 0;
        while i < live
            invariant
                i <= live <= full,
                at + full <= table@.len() <= usize::MAX,
                kept@ == had + table@.subrange(at as int, at + i),
            decreases live - i,
        {
            kept.push(table[at + i]);
            i = i + 1;
            assert(kept@ =~= had + table@.subrange(at as int, at + i));
        }
        r = r + 1;
        at = at + full;
    }
    kept
}

/// The element type of a buffer.
#[derive(Debug, Clone, Copy, PartialEq, Eq, Structural)]
pub enum Element {
    /// Half-precision floats.
    Half,
    /// Single-precision floats.
    Single,
    /// Words of packed quants.
    Word,
}

/// Elements of a single-token buffer; a chunk-only slot has none.
pub open spec fn decode_size(d: ModelDesc, slot: Slot) -> Option<(Element, int)> {
    match slot {
        Slot::X | Slot::Xn | Slot::O | Slot::On | Slot::X2 | Slot::Fin | Slot::F | Slot::Fn2 =>
            Some((Element::Half, HIDDEN as int)),
        Slot::QRaw(kind) | Slot::Q(kind) | Slot::Attn(kind) => Some((Element::Half, d.q_dim(kind))),
        Slot::Kp(kind) | Slot::K(kind) | Slot::V(kind) => Some((Element::Half, d.kv_dim(kind))),
        Slot::Vp => Some((Element::Half, d.kv_dim(LayerKind::Sliding))),
        Slot::G | Slot::U | Slot::Gu => Some((Element::Half, FFN as int)),
        Slot::Part(kind) => Some(
            (Element::Single, 32 * splits(kind) * (d.geometry(kind).head_dim + 2)),
        ),
        Slot::Logits => Some((Element::Single, d.vocab_size as int)),
        Slot::CosSin(kind) => Some((Element::Single, d.live_pairs(kind) * 2)),
        Slot::FinI8 | Slot::FinScales | Slot::GuI8 | Slot::GuScales => None,
    }
}

/// Elements of a chunk-sized buffer for `m` rows; a single-token slot has
/// none.
pub open spec fn prefill_size(d: ModelDesc, slot: Slot, m: int) -> Option<(Element, int)> {
    match slot {
        Slot::FinI8 => Some((Element::Word, m * HIDDEN / 4)),
        Slot::FinScales => Some((Element::Half, m * HIDDEN / 32)),
        Slot::GuI8 => Some((Element::Word, m * FFN / 4)),
        Slot::GuScales => Some((Element::Half, m * FFN / 32)),
        Slot::CosSin(LayerKind::Sliding) => Some(
            (Element::Single, m * d.sliding.head_dim / 2 * 2),
        ),
        Slot::CosSin(LayerKind::Global) => Some((Element::Single, m * d.global.head_dim / 8 * 2)),
        Slot::Part(_) | Slot::Logits => None,
        _ => match decode_size(d, slot) {
            Some((element, n)) => Some((element, m * n)),
            None => None,
        },
    }
}

/// Elements of the key store, and of the value store, of a layer: a ring of
/// the window, or room for `cap` tokens.
pub open spec fn store_size(d: ModelDesc, kind: LayerKind, cap: int) -> int {
    match kind {
        LayerKind::Sliding => d.sliding_window * d.kv_dim(kind),
        LayerKind::Global => cap * d.kv_dim(kind),
    }
}

/// The element type and size of a single-token buffer.
pub fn decode_buffer(d: &ModelDesc, slot: Slot) -> (r: Option<(Element, u64)>)
    requires
        d.wf(),
    ensures
        match decode_size(*d, slot) {
            Some((element, n)) => r matches Some((e, len)) && e == element && len == n,
            None => r is None,
        },
{
    match slot {
        Slot::X | Slot::Xn | Slot::O | Slot::On | Slot::X2 | Slot::Fin | Slot::F | Slot::Fn2 =>
            Some((Element::Half, HIDDEN as u64)),
        Slot::QRaw(kind) | Slot::Q(kind) | Slot::Attn(kind) => {
            Some((Element::Half, d.query_width(kind) as u64))
        },
        Slot::Kp(kind) | Slot::K(kind) | Slot::V(kind) => {
            Some((Element::Half, d.kv_width(kind) as u64))
        },
        Slot::Vp => Some((Element::Half, d.kv_width(LayerKind::Sliding) as u64)),
        Slot::G | Slot::U | Slot::Gu => Some((Element::Half, FFN as u64)),
        Slot::Part(kind) => {
            let width: u64 = d.head_dim(kind) as u64 + 2;
            let n: u64 = match kind {
                LayerKind::Sliding => 32 * SPLITS_SLIDING as u64,
                LayerKind::Global => 32 * SPLITS_GLOBAL as u64,
            };
            assert(n * width <= u64::MAX) by (nonlinear_arith)
                requires
                    n <= 1024,
                    width <= u32::MAX + 2,
            ;
            Some((Element::Single, n * width))
        },
        Slot::Logits => Some((Element::Single, d.vocab_size as u64)),
        Slot::CosSin(kind) => Some((Element::Single, d.rope_pairs(kind) as u64 * 2)),
        Slot::FinI8 | Slot::FinScales | Slot::GuI8 | Slot::GuScales => None,
    }
}

/// The widest rows of `m` fit a 64-bit count.
pub open spec fn buffers_fit(d: ModelDesc, m: int) -> bool {
    &&& m * FFN <= u64::MAX
    &&& m * d.q_dim(LayerKind::Sliding) <= u64::MAX
    &&& m * d.q_dim(LayerKind::Global) <= u64::MAX
    &&& m * d.kv_dim(LayerKind::Sliding) <= u64::MAX
    &&& m * d.kv_dim(LayerKind::Global) <= u64::MAX
    &&& m * d.vocab_size <= u64::MAX
}

/// The element type and size of a chunk-sized buffer for `m` rows.
pub fn prefill_buffer(d: &ModelDesc, slot: Slot, m: usize) -> (r: Option<(Element, u64)>)
    requires
        d.wf(),
        buffers_fit(*d, m as int),
    ensures
        match prefill_size(*d, slot, m as int) {
            Some((element, n)) => r matches Some((e, len)) && e == element && len == n,
            None => r is None,
        },
{
    let rows: u64 = m as u64;
    let hidden: u64 = HIDDEN as u64;
    let ffn: u64 = FFN as u64;
    match slot {
        Slot::FinI8 => Some((Element::Word, rows * hidden / 4)),
        Slot::FinScales => Some((Element::Half, rows * hidden / 32)),
        Slot::GuI8 => Some((Element::Word, rows * ffn / 4)),
        Slot::GuScales => Some((Element::Half, rows * ffn / 32)),
        Slot::CosSin(kind) => {
            let width: u64 = d.head_dim(kind) as u64;
            assert(rows * width <= rows * (32 * width)) by (nonlinear_arith)
                requires
                    rows >= 0,
                    width >= 0,
            ;
            match kind {
                LayerKind::Sliding => Some((Element::Single, rows * width / 2 * 2)),
                LayerKind::Global => Some((Element::Single, rows * width / 8 * 2)),
            }
        },
        Slot::Part(_) | Slot::Logits => None,
        _ => match decode_buffer(d, slot) {
            Some((element, n)) => Some((element, rows * n)),
            None => None,
        },
    }
}

/// Elements of the key store, and of the value store, of a layer.
pub fn store_len(d: &ModelDesc, kind: LayerKind, cap: usize) -> (n: u64)
    requires
        d.wf(),
        store_size(*d, kind, cap as int) <= u64::MAX,
    ensures
        n == store_size(*d, kind, cap as int),
{
    let width: u64 = d.kv_width(kind) as u64;
    match kind {
        LayerKind::Sliding => d.sliding_window as u64 * width,
        LayerKind::Global => cap as u64 * width,
    }
}

/// The activation that a tap name stands for in a layer of a kind.
pub open spec fn tap_slot(name: Seq<char>, kind: LayerKind) -> Option<Slot> {
    if name == "attn_norm"@ {
        Some(Slot::Xn)
    } else if name == "q_rope"@ {
        Some(Slot::Q(kind))
    } else if name == "k_rope"@ {
        Some(Slot::K(kind))
    } else if name == "v_norm"@ {
        Some(Slot::V(kind))
    } else if name == "attn"@ {
        Some(Slot::Attn(kind))
    } else if name == "attn_out"@ {
        Some(Slot::O)
    } else if name == "post_attn_norm"@ {
        Some(Slot::On)
    } else if name == "h_attn"@ {
        Some(Slot::X2)
    } else if name == "ffn_norm"@ {
        Some(Slot::Fin)
    } else if name == "ffn_out"@ {
        Some(Slot::F)
    } else if name == "post_ffn_norm"@ {
        Some(Slot::Fn2)
    } else if name == "layer_out"@ {
        Some(Slot::X)
    } else {
        None
    }
}

/// What is said of a tap name that stands for nothing.
pub open spec fn unknown_tap(name: Seq<char>) -> Seq<char> {
    "unknown tap `"@ + name + "`"@
}

/// The activation that a tap name stands for.
pub fn prefill_tap(name: &str, kind: LayerKind) -> (r: Result<Slot, String>)
    ensures
        match tap_slot(name@, kind) {
            Some(slot) => r == Ok::<Slot, String>(slot),
            None => r matches Err(e) && e@ == unknown_tap(name@),
        },
{
    if same_text(name, "attn_norm") {
        Ok(Slot::Xn)
    } else if same_text(name, "q_rope") {
        Ok(Slot::Q(kind))
    } else if same_text(name, "k_rope") {
        Ok(Slot::K(kind))
    } else if same_text(name, "v_norm") {
        Ok(Slot::V(kind))
    } else if same_text(name, "attn") {
        Ok(Slot::Attn(kind))
    } else if same_text(name, "attn_out") {
        Ok(Slot::O)
    } else if same_text(name, "post_attn_norm") {
        Ok(Slot::On)
    } else if same_text(name, "h_attn") {
        Ok(Slot::X2)
    } else if same_text(name, "ffn_norm") {
        Ok(Slot::Fin)
    } else if same_text(name, "ffn_out") {
        Ok(Slot::F)
    } else if same_text(name, "post_ffn_norm") {
        Ok(Slot::Fn2)
    } else if same_text(name, "layer_out") {
        Ok(Slot::X)
    } else {
        let mut e: String = "unknown tap `".to_string();
        e.append(name);
        e.append("`");
        Err(e)
    }
}

/// Of every whole row of a table its first elements are kept, one row behind
/// the other.
pub proof fn lemma_row_kept<T>(table: Seq<T>, full: int, live: int, n: nat, r: int, i: int)
    requires
        0 <= live <= full,
        n * full <= table.len(),
        0 <= r < n,
        0 <= i < live,
    ensures
        row_prefixes(table, full, live, n).len() == n * live,
        0 <= r * live + i < n * live,
        row_prefixes(table, full, live, n)[r * live + i] == table[r * full + i],
    decreases n,
{
    lemma_rows_kept(table, full, live, n);
    assert(0 <= r * live && (r + 1) * live <= n * live && (r + 1) * live == r * live + live)
        by (nonlinear_arith)
        requires
            0 <= r,
            r + 1 <= n,
            0 <= live,
    ;
    let last = (n - 1) as nat;
    assert(last * full <= n * full && n * full == last * full + full) by (nonlinear_arith)
        requires
            n == last + 1,
            0 <= full,
    ;
    lemma_rows_kept(table, full, live, last);
    if r < last {
        lemma_row_kept(table, full, live, last, r, i);
    }
}

proof fn lemma_rows_kept<T>(table: Seq<T>, full: int, live: int, n: nat)
    requires
        0 <= live <= full,
        n * full <= table.len(),
    ensures
        row_prefixes(table, full, live, n).len() == n * live,
    decreases n,
{
    if n > 0 {
        let last = (n - 1) as nat;
        assert(n * full == last * full + full && 0 <= last * full && n * live == last * live + live)
            by (nonlinear_arith)
            requires
                n == last + 1,
                0 <= full,
        ;
        lemma_rows_kept(table, full, live, last);
    } else {
        assert(n * live == 0) by (nonlinear_arith)
            requires
                n == 0,
        ;
    }
}

/// A chunk-sized buffer has room for as many rows as the chunk, each as wide
/// as the single-token buffer of the same activation and of the same type;
/// four 8-bit numbers make a word, and 32 of them have one scale.
pub proof fn lemma_chunk_rows(d: ModelDesc, slot: Slot, m: int)
    requires
        m >= 0,
        d.sliding.head_dim % 2 == 0,
        d.global.head_dim % 8 == 0,
    ensures
        match slot {
            Slot::Part(_) | Slot::Logits => prefill_size(d, slot, m) is None,
            Slot::FinI8 | Slot::FinScales | Slot::GuI8 | Slot::GuScales => decode_size(
                d,
                slot,
            ) is None,
            _ => prefill_size(d, slot, m) == Some(
                ((decode_size(d, slot)->0).0, m * (decode_size(d, slot)->0).1),
            ),
        },
        ({
            let (fin, gu) = (
                (prefill_size(d, Slot::Fin, m)->0).1,
                (prefill_size(d, Slot::Gu, m)->0).1,
            );
            let (words, scales) = (
                prefill_size(d, Slot::FinI8, m)->0,
                prefill_size(d, Slot::FinScales, m)->0,
            );
            let (gu_words, gu_scales) = (
                prefill_size(d, Slot::GuI8, m)->0,
                prefill_size(d, Slot::GuScales, m)->0,
            );
            &&& words.0 == Element::Word && 4 * words.1 == fin
            &&& scales.0 == Element::Half && 32 * scales.1 == fin
            &&& gu_words.0 == Element::Word && 4 * gu_words.1 == gu
            &&& gu_scales.0 == Element::Half && 32 * gu_scales.1 == gu
        }),
{
    let (s, g) = (d.sliding.head_dim as int, d.global.head_dim as int);
    assert(m * s / 2 * 2 == m * (s / 2 * 2)) by (nonlinear_arith)
        requires
            s % 2 == 0,
    {
        let h = s / 2;
        assert(s == 2 * h);
        assert(m * s == 2 * (m * h)) by (nonlinear_arith)
            requires
                s == 2 * h,
        ;
    }
    assert(m * g / 8 * 2 == m * (g / 8 * 2)) by (nonlinear_arith)
        requires
            g % 8 == 0,
    {
        let h = g / 8;
        assert(g == 8 * h);
        assert(m * g == 8 * (m * h)) by (nonlinear_arith)
            requires
                g == 8 * h,
        ;
        assert(m * (h * 2) == m * h * 2) by (nonlinear_arith);
    }
}

} // verus!
