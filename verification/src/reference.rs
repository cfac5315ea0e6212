//! The host reference model: its cache, which keys a query sees, where rows
//! lie, and the shape that the rotation factors must have.

use vstd::prelude::*;
use vstd::string::*;

use crate::sampler::{float_value, lemma_values_grow};
use crate::shape::ModelDesc;
use crate::text::{decimal, push_decimal};
use crate::weights::{weight_name, RefError, Weight};

verus! {

/// The keys and values of every token so far, per layer. Sliding layers keep
/// everything too: the window is applied as a mask.
#[derive(Debug)]
pub struct CpuKvCache<T> {
    keys: Vec<Vec<T>>,
    values: Vec<Vec<T>>,
    len: usize,
}

pub struct CacheView<T> {
    pub keys: Seq<Seq<T>>,
    pub values: Seq<Seq<T>>,
    pub len: nat,
}

impl<T> View for CpuKvCache<T> {
    type V = CacheView<T>;

    closed spec fn view(&self) -> CacheView<T> {
        CacheView {
            keys: self.keys@.map_values(|v: Vec<T>| v@),
            values: self.values@.map_values(|v: Vec<T>| v@),
            len: self.len as nat,
        }
    }
}

impl<T> CacheView<T> {
    /// Every layer holds the keys and values of all tokens.
    pub open spec fn full(self, d: ModelDesc) -> bool {
        &&& self.keys.len() == d.layer_kinds@.len()
        &&& self.values.len() == d.layer_kinds@.len()
        &&& forall|i: int|
            0 <= i < self.keys.len() ==> (#[trigger] self.keys[i]).len() == self.len * d.kv_dim(
                d.layer_kinds@[i],
            )
        &&& forall|i: int|
            0 <= i < self.values.len() ==> (#[trigger] self.values[i]).len() == self.len * d.kv_dim(
                d.layer_kinds@[i],
            )
    }
}

impl<T: Copy> CpuKvCache<T> {
    /// Nothing cached, for every layer of a model.
    pub fn new(desc: &ModelDesc) -> (cache: Self)
        ensures
            cache@.keys == Seq::new(desc.n_layers as nat, |i: int| Seq::<T>::empty()),
            cache@.values == Seq::new(desc.n_layers as nat, |i: int| Seq::<T>::empty()),
            cache@.len == 0,
    {
        let n_layers: usize = desc.n_layers;
        let mut keys: Vec<Vec<T>> = Vec::new();
        let mut values: Vec<Vec<T>> = Vec::new();
        let mut i: usize = 0;
        while i < n_layers
            invariant
                i <= n_layers,
                keys@.len() == i,
                values@.len() == i,
                forall|j: int| 0 <= j < i ==> (#[trigger] keys@[j])@.len() == 0,
                forall|j: int| 0 <= j < i ==> (#[trigger] values@[j])@.len() == 0,
            decreases n_layers - i,
        {
            keys.push(Vec::new());
            values.push(Vec::new());
            i = i + 1;
        }
        let cache = CpuKvCache { keys, values, len: 0 };
        assert(cache@.keys =~= Seq::new(n_layers as nat, |i: int| Seq::<T>::empty())) by {
            assert forall|j: int| 0 <= j < n_layers implies #[trigger] cache@.keys[j] =~= Seq::<
                T,
            >::empty() by {
                assert(keys@[j]@.len() == 0);
            }
        }
        assert(cache@.values =~= Seq::new(n_layers as nat, |i: int| Seq::<T>::empty())) by {
            assert forall|j: int| 0 <= j < n_layers implies #[trigger] cache@.values[j] =~= Seq::<
                T,
            >::empty() by {
                assert(values@[j]@.len() == 0);
            }
        }
        cache
    }

    /// Tokens already cached: the position of the next one.
    pub fn len(&self) -> (n: usize)
        ensures
            n == self@.len,
    {
        self.len
    }

    pub fn is_empty(&self) -> (r: bool)
        ensures
            r == (self@.len == 0),
    {
        self.len == 0
    }

    /// The keys of a layer.
    pub fn keys(&self, layer: usize) -> (k: &Vec<T>)
        requires
            layer < self@.keys.len(),
        ensures
            k@ == self@.keys[layer as int],
    {
        &self.keys[layer]
    }

    /// The values of a layer.
    pub fn values(&self, layer: usize) -> (v: &Vec<T>)
        requires
            layer < self@.values.len(),
        ensures
            v@ == self@.values[layer as int],
    {
        &self.values[layer]
    }

    /// Appends the keys and values of new tokens to a layer.
    pub fn append(&mut self, layer: usize, k: &[T], v: &[T])
        requires
            layer < old(self)@.keys.len(),
            layer < old(self)@.values.len(),
        ensures
            final(self)@.keys == old(self)@.keys.update(
                layer as int,
                old(self)@.keys[layer as int] + k@,
            ),
            final(self)@.values == old(self)@.values.update(
                layer as int,
                old(self)@.values[layer as int] + v@,
            ),
            final(self)@.len == old(self)@.len,
    {
        let ghost had = self@;
        extend(&mut self.keys[layer], k);
        extend(&mut self.values[layer], v);
        assert(self@.keys =~= had.keys.update(layer as int, had.keys[layer as int] + k@));
        assert(self@.values =~= had.values.update(layer as int, had.values[layer as int] + v@));
    }

    /// Counts new tokens, once every layer has their keys and values.
    pub fn advance(&mut self, n: usize)
        requires
            old(self)@.len + n <= usize::MAX,
        ensures
            final(self)@.keys == old(self)@.keys,
            final(self)@.values == old(self)@.values,
            final(self)@.len == old(self)@.len + n,
    {
        self.len = self.len + n;
    }
}

fn extend<T: Copy>(to: &mut Vec<T>, from: &[T])
    ensures
        final(to)@ == old(to)@ + from@,
{
    let ghost had = to@;
    let mut i: usize = 0;
    while i < from.len()
        invariant
            i <= from@.len(),
            to@ == had + from@.take(i as int),
        decreases from@.len() - i,
    {
        to.push(from[i]);
        i = i + 1;
        assert(to@ =~= had + from@.take(i as int));
    }
    assert(from@.take(i as int) =~= from@);
}

/// A full cache stays full: `n` more tokens in every layer, then counted.
pub proof fn lemma_cache_stays_full<T>(before: CacheView<T>, after: CacheView<T>, d: ModelDesc, n: nat)
    requires
        before.full(d),
        after.keys.len() == before.keys.len(),
        after.values.len() == before.values.len(),
        after.len == before.len + n,
        forall|i: int|
            0 <= i < after.keys.len() ==> (#[trigger] after.keys[i]).len() == before.keys[i].len()
                + n * d.kv_dim(d.layer_kinds@[i]),
        forall|i: int|
            0 <= i < after.values.len() ==> (#[trigger] after.values[i]).len()
                == before.values[i].len() + n * d.kv_dim(d.layer_kinds@[i]),
    ensures
        after.full(d),
{
    assert forall|i: int| 0 <= i < after.keys.len() implies (#[trigger] after.keys[i]).len()
        == after.len * d.kv_dim(d.layer_kinds@[i]) by {
        let w = d.kv_dim(d.layer_kinds@[i]);
        assert(before.keys[i].len() == before.len * w);
        assert(before.len * w + n * w == (before.len + n) * w) by (nonlinear_arith);
    }
    assert forall|i: int| 0 <= i < after.values.len() implies (#[trigger] after.values[i]).len()
        == after.len * d.kv_dim(d.layer_kinds@[i]) by {
        let w = d.kv_dim(d.layer_kinds@[i]);
        assert(before.values[i].len() == before.len * w);
        assert(before.len * w + n * w == (before.len + n) * w) by (nonlinear_arith);
    }
}

/// The first key that the query at `q_pos` sees.
pub open spec fn visible_from(window: Option<usize>, q_pos: int) -> int {
    match window {
        Some(w) => if q_pos + 1 < w {
            0
        } else {
            q_pos + 1 - w
        },
        None => 0,
    }
}

/// One output row of attention: whose it is and what it reads.
#[derive(Debug, Clone, Copy, PartialEq, Eq, Structural)]
pub struct HeadPlan {
    /// The token among those of the pass, and its head.
    pub token: usize,
    pub head: usize,
    /// The head of the keys and values that it attends with.
    pub kv_head: usize,
    /// Where its query starts, and where its output does.
    pub row: usize,
    /// The first and the last key that it sees.
    pub lo: usize,
    pub q_pos: usize,
}

/// What output row `i` of attention reads, when the first token of the pass
/// stands at `q0`.
pub fn head_plan(
    i: usize,
    q0: usize,
    n_q_heads: usize,
    n_kv: usize,
    head_dim: usize,
    window: Option<usize>,
) -> (p: HeadPlan)
    requires
        0 < n_kv <= n_q_heads,
        i * head_dim <= usize::MAX,
        q0 + (i as int / n_q_heads as int) < usize::MAX,
    ensures
        p.token == i as int / n_q_heads as int,
        p.head == i as int % n_q_heads as int,
        p.kv_head == p.head as int / (n_q_heads as int / n_kv as int),
        p.row == i * head_dim,
        p.q_pos == q0 + p.token,
        p.lo == visible_from(window, p.q_pos as int),
{
    let token: usize = i / n_q_heads;
    let head: usize = i % n_q_heads;
    assert(n_q_heads as int / n_kv as int >= 1) by (nonlinear_arith)
        requires
            0 < n_kv <= n_q_heads,
    ;
    let per_kv: usize = n_q_heads / n_kv;
    let q_pos: usize = q0 + token;
    let lo: usize = match window {
        Some(w) => if q_pos + 1 < w {
            0
        } else {
            q_pos + 1 - w
        },
        None => 0,
    };
    HeadPlan { token, head, kv_head: head / per_kv, row: i * head_dim, lo, q_pos }
}

/// Where the key, and the value, of a token starts for a head.
pub open spec fn kv_row(kp: int, kv_head: int, n_kv: int, head_dim: int) -> int {
    (kp * n_kv + kv_head) * head_dim
}

/// Where the key, and the value, of token `kp` starts for a head.
pub fn kv_row_at(kp: usize, kv_head: usize, n_kv: usize, head_dim: usize) -> (at: usize)
    requires
        kv_row(kp as int, kv_head as int, n_kv as int, head_dim as int) + head_dim <= usize::MAX,
        0 < head_dim,
    ensures
        at == kv_row(kp as int, kv_head as int, n_kv as int, head_dim as int),
{
    assert(kp * n_kv + kv_head <= (kp * n_kv + kv_head) * head_dim && kp * n_kv <= kp * n_kv
        + kv_head) by (nonlinear_arith)
        requires
            head_dim >= 1,
            kp >= 0,
            n_kv >= 0,
            kv_head >= 0,
    ;
    (kp * n_kv + kv_head) * head_dim
}

/// A query sees the keys up to its own position that are less than a window
/// behind, and no others.
pub proof fn lemma_visible(window: Option<usize>, q_pos: int, kp: int)
    requires
        0 <= q_pos,
        0 <= kp,
    ensures
        visible_from(window, q_pos) <= kp <= q_pos <==> (kp <= q_pos && (window matches Some(w)
            ==> q_pos - kp < w)),
{
}

/// Heads share keys and values in equal groups of neighbours, and a head that
/// a query has leads to one that there are keys of.
pub proof fn lemma_groups(n_q_heads: int, n_kv: int, head: int)
    requires
        0 < n_kv <= n_q_heads,
        n_q_heads % n_kv == 0,
        0 <= head < n_q_heads,
    ensures
        ({
            let per = n_q_heads / n_kv;
            let kv_head = head / per;
            &&& 0 <= kv_head < n_kv
            &&& kv_head * per <= head < (kv_head + 1) * per
        }),
{
    let per = n_q_heads / n_kv;
    let kv_head = head / per;
    vstd::arithmetic::div_mod::lemma_fundamental_div_mod(n_q_heads, n_kv);
    assert(n_kv * per == n_q_heads);
    assert(per >= 1) by (nonlinear_arith)
        requires
            n_kv * per == n_q_heads,
            0 < n_kv <= n_q_heads,
    ;
    vstd::arithmetic::div_mod::lemma_fundamental_div_mod(head, per);
    vstd::arithmetic::div_mod::lemma_div_pos_is_pos(head, per);
    assert(per * kv_head == kv_head * per && (kv_head + 1) * per == kv_head * per + per)
        by (nonlinear_arith);
    if kv_head >= n_kv {
        assert(kv_head * per >= n_kv * per) by (nonlinear_arith)
            requires
                kv_head >= n_kv,
                per >= 1,
        ;
    }
}

/// The row that a query reads lies in a cache of `len` tokens.
pub proof fn lemma_row_in_cache(len: int, n_kv: int, head_dim: int, kp: int, kv_head: int)
    requires
        0 <= kp < len,
        0 <= kv_head < n_kv,
        0 <= head_dim,
    ensures
        0 <= kv_row(kp, kv_head, n_kv, head_dim),
        kv_row(kp, kv_head, n_kv, head_dim) + head_dim <= len * (n_kv * head_dim),
{
    let a = kp * n_kv + kv_head;
    assert(0 <= a && a + 1 <= len * n_kv) by (nonlinear_arith)
        requires
            a == kp * n_kv + kv_head,
            0 <= kp,
            kp + 1 <= len,
            0 <= kv_head,
            kv_head + 1 <= n_kv,
    ;
    assert(0 <= a * head_dim && a * head_dim + head_dim <= len * n_kv * head_dim)
        by (nonlinear_arith)
        requires
            0 <= a,
            a + 1 <= len * n_kv,
            0 <= head_dim,
    ;
    assert(len * n_kv * head_dim == len * (n_kv * head_dim)) by (nonlinear_arith);
}

/// Turns `[rows × tokens]` into `[tokens × rows]`.
pub fn token_major<T: Copy>(by_row: &[T], rows: usize, tokens: usize) -> (out: Vec<T>)
    requires
        by_row@.len() == rows * tokens,
    ensures
        out@.len() == tokens * rows,
        forall|t: int, r: int|
            0 <= t < tokens && 0 <= r < rows ==> #[trigger] out@[t * rows + r] == by_row@[r
                * tokens + t],
{
    let mut out: Vec<T> = Vec::new();
    let ghost w = rows as int;
    let total: usize = by_row.len();
    assert(0 * w == 0) by (nonlinear_arith);
    let mut t: usize = 0;
    while t < tokens
        invariant
            w == rows,
            t <= tokens,
            by_row@.len() == rows * tokens,
            by_row@.len() == total,
            out@.len() == t * w,
            forall|s: int, r: int|
                0 <= s < t && 0 <= r < w ==> #[trigger] out@[s * w + r] == by_row@[r * tokens + s],
        decreases tokens - t,
    {
        let mut r: usize = 0;
        let mut at: usize = t;
        assert(0 * tokens == 0) by (nonlinear_arith);
        while r < rows
            invariant
                w == rows,
                r <= rows,
                t < tokens,
                by_row@.len() == rows * tokens,
                by_row@.len() == total,
                out@.len() == t * w + r,
                r < rows ==> at == r * tokens + t,
                forall|s: int, q: int|
                    0 <= s < t && 0 <= q < w ==> #[trigger] out@[s * w + q] == by_row@[q * tokens
                        + s],
                forall|q: int|
                    0 <= q < r ==> #[trigger] out@[t * w + q] == by_row@[q * tokens + t],
            decreases rows - r,
        {
            assert(r * tokens + t < rows * tokens) by (nonlinear_arith)
                requires
                    r + 1 <= rows,
                    t < tokens,
            ;
            let ghost had = out@;
            out.push(by_row[at]);
            assert forall|s: int, q: int| 0 <= s < t && 0 <= q < w implies #[trigger] out@[s * w
                + q] == by_row@[q * tokens + s] by {
                assert(0 <= s * w + q < t * w) by (nonlinear_arith)
                    requires
                        0 <= s,
                        s + 1 <= t,
                        0 <= q < w,
                ;
                assert(out@[s * w + q] == had[s * w + q]);
            }
            assert forall|q: int| 0 <= q < r + 1 implies #[trigger] out@[t * w + q] == by_row@[q
                * tokens + t] by {
                if q < r {
                    assert(out@[t * w + q] == had[t * w + q]);
                }
            }
            r = r + 1;
            assert((r as int - 1) * tokens + tokens == r * tokens) by (nonlinear_arith);
            if r < rows {
                assert(r * tokens + t < rows * tokens) by (nonlinear_arith)
                    requires
                        r + 1 <= rows,
                        t < tokens,
                ;
                at = at + tokens;
            }
        }
        assert((t + 1) * w == t * w + w) by (nonlinear_arith);
        t = t + 1;
    }
    out
}

/// Whether the bits are those of a factor that leaves a pair alive: 1.0.
pub open spec fn live_factor(bits: u32) -> bool {
    bits == 0x3f80_0000
}

/// Whether the bits are those of a factor that freezes a pair: 1e20 or more.
pub open spec fn frozen_factor(bits: u32) -> bool {
    0x60ad_78ec <= bits <= 0x7f80_0000
}

/// Whether factor `i` of `half` is as it must be: the first quarter of the
/// pairs lives, the rest is frozen.
pub open spec fn factor_fits(bits: u32, i: int, half: int) -> bool {
    if i < half / 4 {
        live_factor(bits)
    } else {
        frozen_factor(bits)
    }
}

/// What is said of a factor that is not as it must be.
pub open spec fn bad_factor(i: nat, shown: Seq<char>) -> Seq<char> {
    "factor["@ + decimal(i) + "] = "@ + shown + ", outside the pinned shape"@
}

/// What is said of the wrong number of factors.
pub open spec fn bad_count(n: nat, half: nat) -> Seq<char> {
    decimal(n) + " entries, expected "@ + decimal(half)
}

/// Factor `i` is the first that is not as it must be.
pub open spec fn first_misfit(factors: Seq<u32>, half: int, i: int) -> bool {
    &&& !factor_fits(factors[i], i, half)
    &&& forall|j: int| 0 <= j < i ==> factor_fits(#[trigger] factors[j], j, half)
}

/// Checks the rotation factors of global layers, given as bits and, for the
/// error, in words.
pub fn check_rope_factors(factors: &[u32], shown: &[String], head_dim: usize) -> (r: Result<
    (),
    RefError,
>)
    requires
        shown@.len() == factors@.len(),
    ensures
        ({
            let half = head_dim as int / 2;
            match r {
                Ok(()) => {
                    &&& factors@.len() == half
                    &&& forall|i: int|
                        0 <= i < half ==> factor_fits(#[trigger] factors@[i], i, half)
                },
                Err(e) => e matches RefError::BadTensor { name, what } && {
                    &&& name@ == weight_name(Weight::RopeFreqs)
                    &&& if factors@.len() != half {
                        what@ == bad_count(factors@.len(), half as nat)
                    } else {
                        exists|i: int|
                            0 <= i < half && first_misfit(factors@, half, i) && what@ == bad_factor(
                                i as nat,
                                (#[trigger] shown@[i])@,
                            )
                    }
                },
            }
        }),
{
    let half: usize = head_dim / 2;
    if factors.len() != half {
        let mut what: String = String::new();
        push_decimal(&mut what, factors.len() as u64);
        what.append(" entries, expected ");
        push_decimal(&mut what, half as u64);
        assert(what@ =~= bad_count(factors@.len(), half as nat));
        return Err(RefError::BadTensor { name: Weight::RopeFreqs.name(), what });
    }
    let live: usize = half / 4;
    let mut i: usize = 0;
    while i < half
        invariant
            i <= half == factors@.len(),
            half == head_dim / 2,
            live == half / 4,
            shown@.len() == factors@.len(),
            forall|j: int| 0 <= j < i ==> factor_fits(#[trigger] factors@[j], j, half as int),
        decreases half - i,
    {
        let f: u32 = factors[i];
        let ok: bool = if i < live {
            f == 0x3f80_0000
        } else {
            0x60ad_78ec <= f && f <= 0x7f80_0000
        };
        if !ok {
            let mut what: String = "factor[".to_owned();
            push_decimal(&mut what, i as u64);
            what.append("] = ");
            what.append(shown[i].as_str());
            what.append(", outside the pinned shape");
            assert(what@ =~= bad_factor(i as nat, shown@[i as int]@));
            assert(first_misfit(factors@, half as int, i as int));
            return Err(RefError::BadTensor { name: Weight::RopeFreqs.name(), what });
        }
        i = i + 1;
    }
    Ok(())
}

/// Rows of keys lie side by side: the first at the start, those of a token in
/// the order of the heads, and behind them those of the next token.
pub proof fn lemma_rows_in_order(kp: int, kv_head: int, n_kv: int, head_dim: int)
    requires
        0 < n_kv,
    ensures
        kv_row(0, 0, n_kv, head_dim) == 0,
        kv_row(kp, kv_head + 1, n_kv, head_dim) == kv_row(kp, kv_head, n_kv, head_dim) + head_dim,
        kv_row(kp + 1, 0, n_kv, head_dim) == kv_row(kp, n_kv - 1, n_kv, head_dim) + head_dim,
{
    assert((0 * n_kv + 0) * head_dim == 0) by (nonlinear_arith);
    assert((kp * n_kv + (kv_head + 1)) * head_dim == (kp * n_kv + kv_head) * head_dim + head_dim)
        by (nonlinear_arith);
    assert(((kp + 1) * n_kv + 0) * head_dim == (kp * n_kv + (n_kv - 1)) * head_dim + head_dim)
        by (nonlinear_arith);
}

/// The factors by value: a pair lives where its factor is one, and is frozen
/// where it is no smaller than the float next to 10 to the 20th, infinity
/// among them. The first quarter of the pairs must live and the others be
/// frozen.
pub proof fn lemma_factors_by_value(bits: u32, i: int, half: int)
    requires
        !(0x7f80_0000 < bits < 0x8000_0000),
        bits <= 0xff80_0000,
    ensures
        live_factor(bits) <==> float_value(bits) == float_value(0x3f80_0000),
        frozen_factor(bits) <==> float_value(bits) >= float_value(0x60ad_78ec),
        4 * i + 3 < half ==> factor_fits(bits, i, half) == live_factor(bits),
        half < 4 * i + 4 ==> factor_fits(bits, i, half) == frozen_factor(bits),
{
    lemma_values_grow(bits, 0x3f80_0000);
    lemma_values_grow(0x3f80_0000, bits);
    lemma_values_grow(bits, 0x60ad_78ec);
    lemma_values_grow(0x60ad_78ec, bits);
}

} // verus!
