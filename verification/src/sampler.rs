//! The parts of CPU sampling that do not depend on rounding: the random
//! stream, greedy choice, and the choice of candidates by logit.
//!
//! Logits are handled as the bit patterns of 32-bit IEEE floats. Drawing is
//! deterministic given (parameters, seed, logits): the generator is a
//! self-contained xoshiro256++.

use vstd::arithmetic::power2::{
    lemma_pow2_pos, lemma_pow2_strictly_increases, lemma_pow2_unfold, pow2,
};
use vstd::prelude::*;

verus! {

/// `x` rotated left by `k` bits.
pub open spec fn rotated(x: u64, k: u64) -> u64 {
    (x << k) | (x >> ((64 - k) as u64))
}

/// `x + y` modulo 2^64.
pub open spec fn wrap_add(x: u64, y: u64) -> u64 {
    ((x + y) % 0x1_0000_0000_0000_0000) as u64
}

/// `x * y` modulo 2^64.
pub open spec fn wrap_mul(x: u64, y: u64) -> u64 {
    ((x * y) % 0x1_0000_0000_0000_0000) as u64
}

/// The splitmix64 finalizer.
#[verifier::opaque]
pub open spec fn mixed(x: u64) -> u64 {
    let a = wrap_mul(x ^ (x >> 30u64), 0xBF58476D1CE4E5B9);
    let b = wrap_mul(a ^ (a >> 27u64), 0x94D049BB133111EB);
    b ^ (b >> 31u64)
}

/// The splitmix64 counter moved one step on.
#[verifier::opaque]
pub open spec fn bumped(x: u64) -> u64 {
    wrap_add(x, 0x9E3779B97F4A7C15)
}

/// The state of the splitmix64 counter after `n` steps from `seed`.
pub open spec fn counter(seed: u64, n: nat) -> u64
    decreases n,
{
    if n == 0 {
        seed
    } else {
        bumped(counter(seed, (n - 1) as nat))
    }
}

/// The state of a generator seeded with `seed`.
pub open spec fn seeded(seed: u64) -> (u64, u64, u64, u64) {
    (
        mixed(counter(seed, 1)),
        mixed(counter(seed, 2)),
        mixed(counter(seed, 3)),
        mixed(counter(seed, 4)),
    )
}

/// What xoshiro256++ draws from a state.
pub open spec fn drawn(s: (u64, u64, u64, u64)) -> u64 {
    wrap_add(rotated(wrap_add(s.0, s.3), 23), s.0)
}

/// The state of xoshiro256++ after a draw.
pub open spec fn stepped(s: (u64, u64, u64, u64)) -> (u64, u64, u64, u64) {
    let t = s.1 << 17u64;
    let s2 = s.2 ^ s.0;
    let s3 = s.3 ^ s.1;
    (s.0 ^ s3, s.1 ^ s2, s2 ^ t, rotated(s3, 45))
}

/// The state after `n` draws.
pub open spec fn stepped_times(s: (u64, u64, u64, u64), n: nat) -> (u64, u64, u64, u64)
    decreases n,
{
    if n == 0 {
        s
    } else {
        stepped(stepped_times(s, (n - 1) as nat))
    }
}

/// The one state from which nothing but zeros would ever be drawn.
pub open spec fn dead(s: (u64, u64, u64, u64)) -> bool {
    s.0 == 0 && s.1 == 0 && s.2 == 0 && s.3 == 0
}

fn rotate(x: u64, k: u64) -> (r: u64)
    requires
        0 < k < 64,
    ensures
        r == rotated(x, k),
{
    (x << k) | (x >> (64 - k))
}

fn bump(x: u64) -> (r: u64)
    ensures
        r == bumped(x),
{
    reveal(bumped);
    x.wrapping_add(0x9E3779B97F4A7C15)
}

fn mix(x: u64) -> (z: u64)
    ensures
        z == mixed(x),
{
    reveal(mixed);
    let mut z: u64 = x;
    z = (z ^ (z >> 30)).wrapping_mul(0xBF58476D1CE4E5B9);
    z = (z ^ (z >> 27)).wrapping_mul(0x94D049BB133111EB);
    z ^ (z >> 31)
}

/// Seeded sampler; one per request.
pub struct Sampler {
    s0: u64,
    s1: u64,
    s2: u64,
    s3: u64,
}

impl View for Sampler {
    type V = (u64, u64, u64, u64);

    closed spec fn view(&self) -> (u64, u64, u64, u64) {
        (self.s0, self.s1, self.s2, self.s3)
    }
}

impl Sampler {
    pub fn new(seed: u64) -> (s: Self)
        ensures
            s@ == seeded(seed),
    {
        let x1: u64 = bump(seed);
        let x2: u64 = bump(x1);
        let x3: u64 = bump(x2);
        let x4: u64 = bump(x3);
        assert(counter(seed, 0) == seed);
        assert(counter(seed, 1) == x1);
        assert(counter(seed, 2) == x2);
        assert(counter(seed, 3) == x3);
        assert(counter(seed, 4) == x4);
        Sampler { s0: mix(x1), s1: mix(x2), s2: mix(x3), s3: mix(x4) }
    }

    /// xoshiro256++.
    pub fn next_u64(&mut self) -> (r: u64)
        ensures
            r == drawn(old(self)@),
            final(self)@ == stepped(old(self)@),
    {
        let result: u64 = rotate(self.s0.wrapping_add(self.s3), 23).wrapping_add(self.s0);
        let t: u64 = self.s1 << 17;
        self.s2 = self.s2 ^ self.s0;
        self.s3 = self.s3 ^ self.s1;
        self.s1 = self.s1 ^ self.s2;
        self.s0 = self.s0 ^ self.s3;
        self.s2 = self.s2 ^ t;
        self.s3 = rotate(self.s3, 45);
        result
    }

    /// 53 uniform bits: the numerator of a draw in [0, 1) over 2^53.
    pub fn next_53(&mut self) -> (r: u64)
        ensures
            r == drawn(old(self)@) >> 11u64,
            r < 0x20_0000_0000_0000,
            final(self)@ == stepped(old(self)@),
    {
        let x: u64 = self.next_u64();
        assert(x >> 11u64 < 0x20_0000_0000_0000u64) by (bit_vector);
        x >> 11
    }
}

/// Multiplying by an odd constant loses nothing: only zero gives zero.
proof fn lemma_odd_mul(x: u64, c: u64, inverse: int, k: int)
    requires
        c * inverse == 1 + k * 0x1_0000_0000_0000_0000,
        wrap_mul(x, c) == 0,
    ensures
        x == 0,
{
    let m: int = 0x1_0000_0000_0000_0000;
    let q = (x * c) / m;
    assert(x * c == q * m) by {
        vstd::arithmetic::div_mod::lemma_fundamental_div_mod(x * c, m);
        assert((x * c) % m == 0);
        assert(m * q == q * m) by (nonlinear_arith);
    }
    assert(x == m * (q * inverse - x * k)) by (nonlinear_arith)
        requires
            x * c == q * m,
            c * inverse == 1 + k * m,
    ;
    let r = q * inverse - x * k;
    assert(x == m * r);
    if r > 0 {
        assert(m * r >= m) by (nonlinear_arith)
            requires
                r > 0,
                m > 0,
        ;
    }
    if r < 0 {
        assert(m * r < 0) by (nonlinear_arith)
            requires
                r < 0,
                m > 0,
        ;
    }
}

/// Only zero mixes to zero.
proof fn lemma_mixed_zero(x: u64)
    requires
        mixed(x) == 0,
    ensures
        x == 0,
{
    reveal(mixed);
    let a = wrap_mul(x ^ (x >> 30u64), 0xBF58476D1CE4E5B9);
    let b = wrap_mul(a ^ (a >> 27u64), 0x94D049BB133111EB);
    assert(b ^ (b >> 31u64) == 0u64 ==> b == 0u64) by (bit_vector);
    lemma_odd_mul(a ^ (a >> 27u64), 0x94D049BB133111EB, 0x319642B2D24D8EC3, 0x1CD336EDA85F1453);
    assert(a ^ (a >> 27u64) == 0u64 ==> a == 0u64) by (bit_vector);
    lemma_odd_mul(x ^ (x >> 30u64), 0xBF58476D1CE4E5B9, 0x96DE1B173F119089, 0x70C3BCA78F27F46C);
    assert(x ^ (x >> 30u64) == 0u64 ==> x == 0u64) by (bit_vector);
}

/// No seed gives the dead state.
pub proof fn lemma_seeded_alive(seed: u64)
    ensures
        !dead(seeded(seed)),
{
    reveal_with_fuel(counter, 3);
    reveal(bumped);
    if dead(seeded(seed)) {
        lemma_mixed_zero(counter(seed, 1));
        lemma_mixed_zero(counter(seed, 2));
    }
}

/// A draw never reaches the dead state from a live one.
pub proof fn lemma_step_alive(s: (u64, u64, u64, u64))
    requires
        !dead(s),
    ensures
        !dead(stepped(s)),
{
    let (a, b, c, d) = s;
    assert(!((a ^ (d ^ b)) == 0u64 && (b ^ (c ^ a)) == 0u64 && ((c ^ a) ^ (b << 17u64)) == 0u64 && ((
    (d ^ b) << 45u64) | ((d ^ b) >> 19u64)) == 0u64) || (a == 0u64 && b == 0u64 && c == 0u64 && d
        == 0u64)) by (bit_vector);
}

/// However many draws are made from any seed, the state is never dead.
pub proof fn lemma_always_alive(seed: u64, n: nat)
    ensures
        !dead(stepped_times(seeded(seed), n)),
    decreases n,
{
    if n == 0 {
        lemma_seeded_alive(seed);
    } else {
        lemma_always_alive(seed, (n - 1) as nat);
        lemma_step_alive(stepped_times(seeded(seed), (n - 1) as nat));
    }
}

/// A float's place in the total order of floats: negative floats reversed
/// below the positive ones.
pub open spec fn order_key(bits: u32) -> int {
    if bits < 0x8000_0000 {
        bits as int
    } else {
        -1 - (bits - 0x8000_0000)
    }
}

/// Whether a float is no number.
pub open spec fn is_nan(bits: u32) -> bool {
    bits % 0x8000_0000 > 0x7f80_0000
}

/// A float's value up to scale; both zeros are zero.
pub open spec fn magnitude(bits: u32) -> int {
    if bits < 0x8000_0000 {
        bits as int
    } else {
        -(bits - 0x8000_0000)
    }
}

/// Whether one float is greater than another; nothing is greater than, or
/// less than, what is no number.
pub open spec fn is_greater(a: u32, b: u32) -> bool {
    !is_nan(a) && !is_nan(b) && magnitude(a) > magnitude(b)
}

fn greater(a: u32, b: u32) -> (r: bool)
    ensures
        r == is_greater(a, b),
{
    if a % 0x8000_0000 > 0x7f80_0000 || b % 0x8000_0000 > 0x7f80_0000 {
        return false;
    }
    let x: i64 = if a < 0x8000_0000 {
        a as i64
    } else {
        -((a - 0x8000_0000) as i64)
    };
    let y: i64 = if b < 0x8000_0000 {
        b as i64
    } else {
        -((b - 0x8000_0000) as i64)
    };
    x > y
}

/// The greedy choice among the first `n` logits: the first, until a later one
/// is greater than the choice so far.
pub open spec fn greedy_choice(logits: Seq<u32>, n: nat) -> int
    decreases n,
{
    if n <= 1 {
        0
    } else {
        let best = greedy_choice(logits, (n - 1) as nat);
        if is_greater(logits[n - 1], logits[best]) {
            n - 1
        } else {
            best
        }
    }
}

/// The id of the greatest logit; ties break to the lowest id. Without any
/// logit it is 0.
pub fn argmax(logits: &[u32]) -> (id: u32)
    requires
        logits@.len() <= u32::MAX,
    ensures
        id == greedy_choice(logits@, logits@.len()),
        logits@.len() > 0 ==> (id as int) < logits@.len(),
        logits@.len() == 0 ==> id == 0,
{
    let n: usize = logits.len();
    if n == 0 {
        return 0;
    }
    let mut best: usize = 0;
    let mut i: usize = 1;
    while i < n
        invariant
            n == logits@.len(),
            1 <= i <= n,
            best < i,
            best == greedy_choice(logits@, i as nat),
        decreases n - i,
    {
        if greater(logits[i], logits[best]) {
            best = i;
        }
        i = i + 1;
    }
    best as u32
}

/// Where every logit is a number, the greedy choice is the lowest id that no
/// logit exceeds.
pub proof fn lemma_greedy_is_greatest(logits: Seq<u32>, n: nat)
    requires
        0 < n <= logits.len(),
        forall|i: int| 0 <= i < n ==> !is_nan(#[trigger] logits[i]),
    ensures
        0 <= greedy_choice(logits, n) < n,
        forall|i: int|
            0 <= i < n ==> magnitude(#[trigger] logits[i]) <= magnitude(
                logits[greedy_choice(logits, n)],
            ),
        forall|i: int|
            0 <= i < greedy_choice(logits, n) ==> magnitude(#[trigger] logits[i]) < magnitude(
                logits[greedy_choice(logits, n)],
            ),
    decreases n,
{
    if n > 1 {
        lemma_greedy_is_greatest(logits, (n - 1) as nat);
    }
}

/// Candidate `a` comes before candidate `b`: its logit is higher, or the
/// logits are the same and its id is lower.
pub open spec fn ahead(logits: Seq<u32>, a: u32, b: u32) -> bool {
    let (x, y) = (order_key(logits[a as int]), order_key(logits[b as int]));
    x > y || x == y && a < b
}

fn comes_first(logits: &[u32], a: u32, b: u32) -> (r: bool)
    requires
        (a as int) < logits@.len(),
        (b as int) < logits@.len(),
    ensures
        r == ahead(logits@, a, b),
{
    let la: u32 = logits[a as usize];
    let lb: u32 = logits[b as usize];
    let x: i64 = if la < 0x8000_0000 {
        la as i64
    } else {
        -1 - ((la - 0x8000_0000) as i64)
    };
    let y: i64 = if lb < 0x8000_0000 {
        lb as i64
    } else {
        -1 - ((lb - 0x8000_0000) as i64)
    };
    x > y || (x == y && a < b)
}

/// Distinct ids of logits.
pub open spec fn ids_of(ids: Seq<u32>, logits: Seq<u32>) -> bool {
    &&& ids.no_duplicates()
    &&& forall|i: int| 0 <= i < ids.len() ==> (#[trigger] ids[i] as int) < logits.len()
}

/// Every id of `ids[a..b]` comes before every id of `ids[c..d]`.
spec fn all_ahead(logits: Seq<u32>, ids: Seq<u32>, a: int, b: int, c: int, d: int) -> bool {
    forall|i: int, j: int|
        a <= i < b && c <= j < d ==> ahead(logits, #[trigger] ids[i], #[trigger] ids[j])
}

/// `x` is among `ids[lo..hi]`.
#[verifier::opaque]
spec fn among(ids: Seq<u32>, lo: int, hi: int, x: u32) -> bool {
    exists|j: int| lo <= j < hi && #[trigger] ids[j] == x
}

/// `next` holds the ids of `ids`, rearranged inside `lo..hi`.
spec fn rearranged(ids: Seq<u32>, next: Seq<u32>, lo: int, hi: int) -> bool {
    &&& next.len() == ids.len()
    &&& forall|i: int| 0 <= i < ids.len() && !(lo <= i < hi) ==> #[trigger] next[i] == ids[i]
    &&& forall|x: u32| #[trigger] among(next, lo, hi, x) == among(ids, lo, hi, x)
}

proof fn lemma_rearranged_trans(a: Seq<u32>, b: Seq<u32>, c: Seq<u32>, lo: int, hi: int)
    requires
        rearranged(a, b, lo, hi),
        rearranged(b, c, lo, hi),
    ensures
        rearranged(a, c, lo, hi),
{
    assert forall|i: int| 0 <= i < a.len() && !(lo <= i < hi) implies #[trigger] c[i] == a[i] by {
        assert(b[i] == a[i]);
    }
    assert forall|x: u32| #[trigger] among(c, lo, hi, x) == among(a, lo, hi, x) by {
        assert(among(b, lo, hi, x) == among(a, lo, hi, x));
    }
}

proof fn lemma_rearranged_wider(
    a: Seq<u32>,
    b: Seq<u32>,
    lo: int,
    hi: int,
    wide_lo: int,
    wide_hi: int,
)
    requires
        0 <= wide_lo <= lo <= hi <= wide_hi <= a.len(),
        rearranged(a, b, lo, hi),
    ensures
        rearranged(a, b, wide_lo, wide_hi),
{
    reveal(among);
    assert forall|x: u32| #[trigger] among(b, wide_lo, wide_hi, x) == among(
        a,
        wide_lo,
        wide_hi,
        x,
    ) by {
        if among(b, wide_lo, wide_hi, x) {
            let j = choose|j: int| wide_lo <= j < wide_hi && #[trigger] b[j] == x;
            if lo <= j < hi {
                assert(among(b, lo, hi, x));
                assert(among(a, lo, hi, x));
            } else {
                assert(a[j] == x);
            }
        }
        if among(a, wide_lo, wide_hi, x) {
            let j = choose|j: int| wide_lo <= j < wide_hi && #[trigger] a[j] == x;
            if lo <= j < hi {
                assert(among(a, lo, hi, x));
                assert(among(b, lo, hi, x));
            } else {
                assert(b[j] == x);
            }
        }
    }
}

/// Exchanges two ids.
fn exchange(ids: &mut Vec<u32>, i: usize, j: usize, Ghost(lo): Ghost<int>, Ghost(hi): Ghost<int>)
    requires
        0 <= lo <= i < hi <= old(ids)@.len(),
        lo <= j < hi,
    ensures
        final(ids)@ == old(ids)@.update(i as int, old(ids)@[j as int]).update(
            j as int,
            old(ids)@[i as int],
        ),
        rearranged(old(ids)@, final(ids)@, lo, hi),
        old(ids)@.no_duplicates() ==> final(ids)@.no_duplicates(),
{
    let ghost was = ids@;
    let a: u32 = ids[i];
    let b: u32 = ids[j];
    ids.set(i, b);
    ids.set(j, a);
    proof {
        let now = ids@;
        reveal(among);
        assert forall|x: u32| #[trigger] among(now, lo, hi, x) == among(was, lo, hi, x) by {
            if among(now, lo, hi, x) {
                let k = choose|k: int| lo <= k < hi && #[trigger] now[k] == x;
                let m = if k == i { j as int } else if k == j { i as int } else { k };
                assert(was[m] == x);
            }
            if among(was, lo, hi, x) {
                let k = choose|k: int| lo <= k < hi && #[trigger] was[k] == x;
                let m = if k == i { j as int } else if k == j { i as int } else { k };
                assert(now[m] == x);
            }
        }
        if was.no_duplicates() {
            assert forall|x: int, y: int|
                0 <= x < now.len() && 0 <= y < now.len() && x != y implies now[x] != now[y] by {
                let xx = if x == i { j as int } else if x == j { i as int } else { x };
                let yy = if y == i { j as int } else if y == j { i as int } else { y };
                assert(now[x] == was[xx] && now[y] == was[yy]);
            }
        }
    }
}

/// Splits `ids[lo..hi]` around one of its ids: those that come before it,
/// itself, and the rest. Says where it stands.
fn partition(logits: &[u32], ids: &mut Vec<u32>, lo: usize, hi: usize) -> (p: usize)
    requires
        lo < hi <= old(ids)@.len(),
        ids_of(old(ids)@, logits@),
    ensures
        lo <= p < hi,
        ids_of(final(ids)@, logits@),
        rearranged(old(ids)@, final(ids)@, lo as int, hi as int),
        all_ahead(logits@, final(ids)@, lo as int, p as int, p as int, p + 1),
        all_ahead(logits@, final(ids)@, p as int, p + 1, p + 1, hi as int),
{
    let ghost start = ids@;
    let last: usize = hi - 1;
    let mid: usize = lo + (hi - lo) / 2;
    exchange(ids, mid, last, Ghost(lo as int), Ghost(hi as int));
    proof {
        lemma_ids_kept(start, ids@, lo as int, hi as int, logits@);
    }
    let pivot: u32 = ids[last];
    let mut p: usize = lo;
    let mut i: usize = lo;
    while i < last
        invariant
            lo <= p <= i <= last,
            last == hi - 1,
            hi <= ids@.len(),
            ids_of(ids@, logits@),
            rearranged(start, ids@, lo as int, hi as int),
            ids@[last as int] == pivot,
            forall|k: int| lo <= k < p ==> ahead(logits@, #[trigger] ids@[k], pivot),
            forall|k: int| p <= k < i ==> ahead(logits@, pivot, #[trigger] ids@[k]),
        decreases last - i,
    {
        let ghost was = ids@;
        let here: u32 = ids[i];
        assert(here != pivot);
        if comes_first(logits, here, pivot) {
            exchange(ids, p, i, Ghost(lo as int), Ghost(hi as int));
            proof {
                lemma_rearranged_trans(start, was, ids@, lo as int, hi as int);
                lemma_ids_kept(was, ids@, lo as int, hi as int, logits@);
            }
            p = p + 1;
        }
        i = i + 1;
    }
    let ghost was = ids@;
    exchange(ids, p, last, Ghost(lo as int), Ghost(hi as int));
    proof {
        lemma_rearranged_trans(start, was, ids@, lo as int, hi as int);
        lemma_ids_kept(was, ids@, lo as int, hi as int, logits@);
        assert(ids@[p as int] == pivot);
        assert forall|k: int| p < k < hi implies ahead(logits@, pivot, #[trigger] ids@[k]) by {
            if k == last {
                assert(ids@[k] == was[p as int]);
            } else {
                assert(ids@[k] == was[k]);
            }
        }
    }
    p
}

proof fn lemma_ids_kept(a: Seq<u32>, b: Seq<u32>, lo: int, hi: int, logits: Seq<u32>)
    requires
        0 <= lo <= hi <= a.len(),
        ids_of(a, logits),
        rearranged(a, b, lo, hi),
        b.no_duplicates(),
    ensures
        ids_of(b, logits),
{
    assert forall|i: int| 0 <= i < b.len() implies (#[trigger] b[i] as int) < logits.len() by {
        if lo <= i < hi {
            reveal(among);
            assert(among(b, lo, hi, b[i]));
            assert(among(a, lo, hi, b[i]));
            let j = choose|j: int| lo <= j < hi && #[trigger] a[j] == b[i];
            assert((a[j] as int) < logits.len());
        } else {
            assert(b[i] == a[i]);
        }
    }
}

/// Rearranging the ids of one side keeps what comes before what.
proof fn lemma_still_ahead(
    logits: Seq<u32>,
    ids: Seq<u32>,
    next: Seq<u32>,
    lo: int,
    hi: int,
    a: int,
    b: int,
    c: int,
    d: int,
)
    requires
        0 <= a <= b <= c <= d <= ids.len(),
        all_ahead(logits, ids, a, b, c, d),
        0 <= lo <= hi <= ids.len(),
        rearranged(ids, next, lo, hi),
        ({
            ||| a <= lo && hi <= b
            ||| c <= lo && hi <= d
            ||| (hi <= a || b <= lo) && (hi <= c || d <= lo)
        }),
    ensures
        all_ahead(logits, next, a, b, c, d),
{
    reveal(among);
    assert forall|i: int, j: int| a <= i < b && c <= j < d implies ahead(
        logits,
        #[trigger] next[i],
        #[trigger] next[j],
    ) by {
        let ii = if lo <= i < hi {
            assert(among(next, lo, hi, next[i]));
            assert(among(ids, lo, hi, next[i]));
            choose|k: int| lo <= k < hi && #[trigger] ids[k] == next[i]
        } else {
            i
        };
        let jj = if lo <= j < hi {
            assert(among(next, lo, hi, next[j]));
            assert(among(ids, lo, hi, next[j]));
            choose|k: int| lo <= k < hi && #[trigger] ids[k] == next[j]
        } else {
            j
        };
        assert(ids[ii] == next[i] && ids[jj] == next[j]);
    }
}

/// The ids of the `k` highest logits: any id left out comes behind each.
pub open spec fn is_top(logits: Seq<u32>, ids: Seq<u32>, k: nat) -> bool {
    &&& ids.len() == k
    &&& ids_of(ids, logits)
    &&& forall|x: u32, i: int|
        #![trigger ids.contains(x), ids[i]]
        (x as int) < logits.len() && !ids.contains(x) && 0 <= i < ids.len() ==> ahead(
            logits,
            ids[i],
            x,
        )
}

/// The ids of `n` logits, in order.
fn all_ids(n: u32) -> (ids: Vec<u32>)
    ensures
        ids@ == Seq::new(n as nat, |i: int| i as u32),
{
    let mut ids: Vec<u32> = Vec::new();
    let mut i: u32 = 0;
    while i < n
        invariant
            i <= n,
            ids@ == Seq::new(i as nat, |i: int| i as u32),
        decreases n - i,
    {
        ids.push(i);
        i = i + 1;
        assert(ids@ =~= Seq::new(i as nat, |i: int| i as u32));
    }
    ids
}

/// The smaller of two counts.
pub open spec fn at_most(k: nat, n: nat) -> nat {
    if k < n {
        k
    } else {
        n
    }
}

/// Ids of the `k` highest logits (unordered), via quickselect; all of them
/// where there are no more than `k`.
pub fn select_top(logits: &[u32], k: usize) -> (ids: Vec<u32>)
    requires
        logits@.len() <= u32::MAX,
    ensures
        is_top(logits@, ids@, at_most(k as nat, logits@.len())),
{
    let n: usize = logits.len();
    let k: usize = if k < n {
        k
    } else {
        n
    };
    let mut ids = all_ids(n as u32);
    let ghost start = ids@;
    let mut lo: usize = 0;
    let mut hi: usize = n;
    assert(rearranged(start, start, 0, n as int));
    while lo < k && k < hi
        invariant
            n == logits@.len(),
            n == ids@.len(),
            n == start.len(),
            lo <= k <= hi <= n,
            k <= n,
            ids_of(ids@, logits@),
            rearranged(start, ids@, 0, n as int),
            all_ahead(logits@, ids@, 0, lo as int, lo as int, n as int),
            all_ahead(logits@, ids@, 0, hi as int, hi as int, n as int),
        decreases hi - lo,
    {
        let ghost was = ids@;
        let p: usize = partition(logits, &mut ids, lo, hi);
        proof {
            lemma_rearranged_wider(was, ids@, lo as int, hi as int, 0, n as int);
            lemma_rearranged_trans(start, was, ids@, 0, n as int);
            lemma_still_ahead(
                logits@,
                was,
                ids@,
                lo as int,
                hi as int,
                0,
                lo as int,
                lo as int,
                n as int,
            );
            lemma_still_ahead(
                logits@,
                was,
                ids@,
                lo as int,
                hi as int,
                0,
                hi as int,
                hi as int,
                n as int,
            );
            let now = ids@;
            let v = logits@;
            assert forall|i: int, j: int| 0 <= i < p && p <= j < n implies ahead(
                v,
                #[trigger] now[i],
                #[trigger] now[j],
            ) by {
                if i >= lo && j < hi && j > p {
                    assert(ahead(v, now[i], now[p as int]));
                    assert(ahead(v, now[p as int], now[j]));
                }
            }
            assert forall|i: int, j: int| 0 <= i < p + 1 && p + 1 <= j < n implies ahead(
                v,
                #[trigger] now[i],
                #[trigger] now[j],
            ) by {
                if i == p && j < hi {
                    assert(ahead(v, now[p as int], now[j]));
                }
            }
        }
        if k <= p {
            hi = p;
        } else {
            lo = p + 1;
        }
    }
    let ghost full = ids@;
    ids.truncate(k);
    proof {
        let v = logits@;
        assert(all_ahead(v, full, 0, k as int, k as int, n as int));
        assert forall|x: u32, i: int|
            #![trigger ids@.contains(x), ids@[i]]
            (x as int) < v.len() && !ids@.contains(x) && 0 <= i < ids@.len() implies ahead(
            v,
            ids@[i],
            x,
        ) by {
            reveal(among);
            assert(start[x as int] == x);
            assert(among(start, 0, n as int, x));
            assert(among(full, 0, n as int, x));
            let j = choose|j: int| 0 <= j < n && #[trigger] full[j] == x;
            if j < k {
                assert(ids@[j] == x);
            }
            assert(ids@[i] == full[i]);
            assert(ahead(v, full[i], full[j]));
        }
        assert forall|i: int, j: int|
            0 <= i < ids@.len() && 0 <= j < ids@.len() && i != j implies ids@[i] != ids@[j] by {
            assert(full[i] != full[j]);
        }
    }
    ids
}

/// The ids of `ids[lo..hi]` stand in order.
spec fn in_order(logits: Seq<u32>, ids: Seq<u32>, lo: int, hi: int) -> bool {
    forall|i: int, j: int|
        lo <= i < j < hi ==> ahead(logits, #[trigger] ids[i], #[trigger] ids[j])
}

/// Sorts `ids[lo..hi]`: the highest logit first, equal logits by id.
fn sort_ids(logits: &[u32], ids: &mut Vec<u32>, lo: usize, hi: usize)
    requires
        lo <= hi <= old(ids)@.len(),
        ids_of(old(ids)@, logits@),
    ensures
        ids_of(final(ids)@, logits@),
        rearranged(old(ids)@, final(ids)@, lo as int, hi as int),
        in_order(logits@, final(ids)@, lo as int, hi as int),
    decreases hi - lo,
{
    let ghost start = ids@;
    if hi - lo <= 1 {
        return;
    }
    let p: usize = partition(logits, ids, lo, hi);
    let ghost split = ids@;
    sort_ids(logits, ids, lo, p);
    let ghost left = ids@;
    sort_ids(logits, ids, p + 1, hi);
    proof {
        let v = logits@;
        let now = ids@;
        let (l, h, m) = (lo as int, hi as int, p as int);
        lemma_rearranged_wider(split, left, l, m, l, h);
        lemma_rearranged_wider(left, now, m + 1, h, l, h);
        lemma_rearranged_trans(start, split, left, l, h);
        lemma_rearranged_trans(start, left, now, l, h);
        lemma_still_ahead(v, split, left, l, m, l, m, m, m + 1);
        lemma_still_ahead(v, left, now, m + 1, h, l, m, m, m + 1);
        lemma_still_ahead(v, split, left, l, m, m, m + 1, m + 1, h);
        lemma_still_ahead(v, left, now, m + 1, h, m, m + 1, m + 1, h);
        assert forall|i: int, j: int| l <= i < j < h implies ahead(
            v,
            #[trigger] now[i],
            #[trigger] now[j],
        ) by {
            if j < m {
                assert(now[i] == left[i] && now[j] == left[j]);
            } else if i < m && j > m {
                assert(ahead(v, now[i], now[m]));
                assert(ahead(v, now[m], now[j]));
            }
        }
    }
}

/// The `k` highest logits as candidates: the highest first, equal logits by
/// id.
pub open spec fn is_ranking(logits: Seq<u32>, ids: Seq<u32>, k: nat) -> bool {
    &&& is_top(logits, ids, k)
    &&& forall|i: int, j: int|
        0 <= i < j < ids.len() ==> ahead(logits, #[trigger] ids[i], #[trigger] ids[j])
}

/// The candidates of a draw: the ids of the `k` highest logits in order, or of
/// all where there are no more than `k`.
pub fn candidates(logits: &[u32], k: usize) -> (ids: Vec<u32>)
    requires
        logits@.len() <= u32::MAX,
    ensures
        is_ranking(logits@, ids@, at_most(k as nat, logits@.len())),
{
    let mut ids = select_top(logits, k);
    let ghost top = ids@;
    let k: usize = ids.len();
    sort_ids(logits, &mut ids, 0, k);
    proof {
        let v = logits@;
        assert forall|x: u32, i: int|
            #![trigger ids@.contains(x), ids@[i]]
            (x as int) < v.len() && !ids@.contains(x) && 0 <= i < ids@.len() implies ahead(
            v,
            ids@[i],
            x,
        ) by {
            reveal(among);
            if top.contains(x) {
                let j = top.index_of(x);
                assert(top[j] == x);
                assert(among(top, 0, k as int, x));
                assert(among(ids@, 0, k as int, x));
            }
            assert(among(ids@, 0, k as int, ids@[i]));
            assert(among(top, 0, k as int, ids@[i]));
            let m = choose|m: int| 0 <= m < k && #[trigger] top[m] == ids@[i];
            assert(ahead(v, top[m], x));
        }
    }
    ids
}

/// Two rankings of the same logits are the same.
pub proof fn lemma_ranking_unique(logits: Seq<u32>, a: Seq<u32>, b: Seq<u32>, k: nat)
    requires
        is_ranking(logits, a, k),
        is_ranking(logits, b, k),
    ensures
        a == b,
{
    assert forall|i: int| 0 <= i < k implies a[i] == b[i] by {
        lemma_ranking_prefix(logits, a, b, k, i);
    }
    assert(a =~= b);
}

proof fn lemma_ranking_prefix(logits: Seq<u32>, a: Seq<u32>, b: Seq<u32>, k: nat, i: int)
    requires
        is_ranking(logits, a, k),
        is_ranking(logits, b, k),
        0 <= i < k,
    ensures
        a[i] == b[i],
    decreases i,
{
    assert forall|j: int| 0 <= j < i implies a[j] == b[j] by {
        lemma_ranking_prefix(logits, a, b, k, j);
    }
    if a[i] != b[i] {
        if ahead(logits, a[i], b[i]) {
            lemma_not_ahead(logits, b, a, k, i);
        } else {
            lemma_not_ahead(logits, a, b, k, i);
        }
    }
}

/// What stands at `i` of one ranking is not behind what stands at `i` of
/// another that agrees before `i`.
proof fn lemma_not_ahead(logits: Seq<u32>, a: Seq<u32>, b: Seq<u32>, k: nat, i: int)
    requires
        is_ranking(logits, a, k),
        is_ranking(logits, b, k),
        0 <= i < k,
        forall|j: int| 0 <= j < i ==> a[j] == b[j],
        a[i] != b[i],
    ensures
        !ahead(logits, b[i], a[i]),
{
    let x = b[i];
    if ahead(logits, x, a[i]) {
        if a.contains(x) {
            let j = a.index_of(x);
            if j < i {
                assert(b[j] == b[i]);
            } else if j > i {
                assert(ahead(logits, a[i], a[j]));
            }
        } else {
            assert(ahead(logits, a[i], x));
        }
    }
}

/// Widening only adds candidates behind those that were ranked before.
pub proof fn lemma_widening_keeps(logits: Seq<u32>, a: Seq<u32>, b: Seq<u32>, k: nat, m: nat)
    requires
        is_ranking(logits, a, k),
        is_ranking(logits, b, m),
        k <= m,
    ensures
        a == b.take(k as int),
{
    let c = b.take(k as int);
    assert(ids_of(c, logits)) by {
        assert forall|i: int| 0 <= i < c.len() implies (#[trigger] c[i] as int) < logits.len() by {
            assert(c[i] == b[i]);
        }
    }
    assert forall|x: u32, i: int|
        #![trigger c.contains(x), c[i]]
        (x as int) < logits.len() && !c.contains(x) && 0 <= i < c.len() implies ahead(
        logits,
        c[i],
        x,
    ) by {
        assert(c[i] == b[i]);
        if b.contains(x) {
            let j = b.index_of(x);
            if j < k {
                assert(c[j] == x);
            }
            assert(ahead(logits, b[i], b[j]));
        } else {
            assert(ahead(logits, b[i], x));
        }
    }
    assert forall|i: int, j: int| 0 <= i < j < c.len() implies ahead(
        logits,
        #[trigger] c[i],
        #[trigger] c[j],
    ) by {
        assert(ahead(logits, b[i], b[j]));
    }
    lemma_ranking_unique(logits, a, c, k);
}

/// How many candidates are ranked at first: `top_k`, at most the working set
/// of 1024, or the working set where top-k is off.
pub open spec fn first_width(top_k: u32, n: nat) -> nat {
    let wanted: nat = if top_k == 0 || top_k > 1024 {
        1024
    } else {
        top_k as nat
    };
    at_most(wanted, n)
}

/// How many candidates there are at most: `top_k`, or all where top-k is off.
pub open spec fn last_width(top_k: u32, n: nat) -> nat {
    if top_k == 0 {
        n
    } else {
        at_most(top_k as nat, n)
    }
}

/// How many candidates are ranked at first.
pub fn initial_k(top_k: u32, n: usize) -> (k: usize)
    ensures
        k == first_width(top_k, n as nat),
        k <= last_width(top_k, n as nat),
{
    let wanted: usize = if top_k == 0 || top_k > 1024 {
        1024
    } else {
        top_k as usize
    };
    if wanted < n {
        wanted
    } else {
        n
    }
}

/// How many candidates there are at most. Top-p is against the mass of these.
pub fn final_k(top_k: u32, n: usize) -> (k: usize)
    ensures
        k == last_width(top_k, n as nat),
{
    if top_k != 0 && (top_k as usize) < n {
        top_k as usize
    } else {
        n
    }
}

/// What follows a pass over the ranked candidates.
#[derive(Debug, Clone, Copy, PartialEq, Eq, Structural)]
pub enum Pass {
    /// Draw among the first so many candidates.
    Keep(usize),
    /// Rank so many candidates and try again.
    Widen(usize),
}

/// The prefix of the `len` candidates that is drawn from. `reached` is the
/// index at which their mass reached the top-p target, where top-p is on. A
/// working set that does not hold the whole prefix is widened fourfold, up to
/// `top_k` of the `n` logits, or to all of them where top-k is off.
pub open spec fn pass_of(
    top_p_on: bool,
    top_k: u32,
    reached: Option<usize>,
    len: nat,
    n: nat,
) -> Pass {
    let most = last_width(top_k, n);
    if !top_p_on {
        Pass::Keep(len as usize)
    } else {
        match reached {
            Some(i) => Pass::Keep((i + 1) as usize),
            None => if len < most {
                Pass::Widen(at_most(4 * len, most) as usize)
            } else {
                Pass::Keep(len as usize)
            },
        }
    }
}

/// Decides what follows a pass over the ranked candidates.
pub fn after_pass(
    top_p_on: bool,
    top_k: u32,
    reached: Option<usize>,
    len: usize,
    n: usize,
) -> (pass: Pass)
    requires
        0 < len <= n,
        reached matches Some(i) ==> i < len,
    ensures
        pass == pass_of(top_p_on, top_k, reached, len as nat, n as nat),
        pass matches Pass::Keep(keep) ==> 0 < keep <= len,
        pass matches Pass::Widen(k) ==> len < k <= last_width(top_k, n as nat),
{
    if !top_p_on {
        return Pass::Keep(len);
    }
    match reached {
        Some(i) => Pass::Keep(i + 1),
        None => {
            let most: usize = final_k(top_k, n);
            if len < most {
                if len <= most / 4 && 4 * len < most {
                    Pass::Widen(4 * len)
                } else {
                    Pass::Widen(most)
                }
            } else {
                Pass::Keep(len)
            }
        },
    }
}

/// What a pass leads to: all candidates without top-p; the prefix that first
/// reached the target; all of them where no more may be ranked; otherwise
/// more of them, four times as many or as many as there may be.
pub proof fn lemma_pass(top_k: u32, reached: Option<usize>, len: nat, n: nat)
    requires
        0 < len <= n <= usize::MAX,
        reached matches Some(i) ==> i < len,
    ensures
        pass_of(false, top_k, reached, len, n) == Pass::Keep(len as usize),
        reached matches Some(i) ==> pass_of(true, top_k, reached, len, n) == Pass::Keep(
            (i + 1) as usize,
        ),
        reached is None && (len == n || 0 < top_k <= len) ==> pass_of(true, top_k, reached, len, n)
            == Pass::Keep(len as usize),
        reached is None && len < n && (top_k == 0 || len < top_k) ==> (pass_of(
            true,
            top_k,
            reached,
            len,
            n,
        ) matches Pass::Widen(k) && len < k <= n && (top_k > 0 ==> k <= top_k) && (k == 4 * len || k < 4
            * len && (k == n || k == top_k))),
        top_k == 0 || top_k > 1024 ==> first_width(top_k, n) == (if n < 1024 {
            n
        } else {
            1024
        }),
        0 < top_k <= 1024 ==> first_width(top_k, n) == (if n < top_k {
            n
        } else {
            top_k as nat
        }),
{
}

/// A `top_k` inside the working set is never widened, and with top-k off every
/// logit may become a candidate.
pub proof fn lemma_widths(top_k: u32, reached: Option<usize>, n: nat)
    requires
        0 < n <= usize::MAX,
    ensures
        first_width(top_k, n) <= last_width(top_k, n) <= n,
        0 < top_k <= 1024 ==> pass_of(true, top_k, reached, first_width(top_k, n), n) is Keep,
        top_k == 0 ==> last_width(top_k, n) == n,
        top_k > 1024 && n > 1024 ==> (pass_of(true, top_k, None, first_width(top_k, n), n) is Widen),
{
}

/// The exact value of a 32-bit IEEE float in units of the smallest positive
/// one: sign bit, eight bits of exponent, 23 bits of fraction. An infinity
/// counts as the power of two behind the greatest finite float.
pub open spec fn float_value(bits: u32) -> int {
    let exponent = (bits as int / 0x80_0000) % 256;
    let fraction = bits as int % 0x80_0000;
    let size: int = if exponent == 0 {
        fraction
    } else {
        (0x80_0000 + fraction) * pow2((exponent - 1) as nat)
    };
    if bits >= 0x8000_0000 {
        -size
    } else {
        size
    }
}

/// Among floats of one sign the value grows with the bits.
proof fn lemma_value_grows(a: u32, b: u32)
    requires
        a < b < 0x8000_0000,
    ensures
        0 <= float_value(a) < float_value(b),
{
    let (ea, eb) = (a as int / 0x80_0000, b as int / 0x80_0000);
    let (fa, fb) = (a as int % 0x80_0000, b as int % 0x80_0000);
    assert(ea <= eb);
    if ea > 0 {
        lemma_pow2_pos((ea - 1) as nat);
        let p = pow2((ea - 1) as nat) as int;
        assert(0 < (0x80_0000 + fa) * p < 0x100_0000 * p) by (nonlinear_arith)
            requires
                0 <= fa < 0x80_0000,
                p > 0,
        ;
        if ea == eb {
            assert((0x80_0000 + fa) * p < (0x80_0000 + fb) * p) by (nonlinear_arith)
                requires
                    fa < fb,
                    p > 0,
            ;
        } else {
            lemma_pow2_unfold(ea as nat);
            if ea < eb - 1 {
                lemma_pow2_strictly_increases(ea as nat, (eb - 1) as nat);
            }
            let q = pow2((eb - 1) as nat) as int;
            assert(2 * p <= q);
            assert(0x100_0000 * p <= (0x80_0000 + fb) * q) by (nonlinear_arith)
                requires
                    2 * p <= q,
                    0 <= fb,
                    p > 0,
            ;
        }
    } else if eb > 0 {
        lemma_pow2_pos((eb - 1) as nat);
        let q = pow2((eb - 1) as nat) as int;
        assert(0x80_0000 <= (0x80_0000 + fb) * q) by (nonlinear_arith)
            requires
                q >= 1,
                0 <= fb,
        ;
    }
}

proof fn lemma_value_sign(bits: u32)
    requires
        bits >= 0x8000_0000,
    ensures
        float_value(bits) == -float_value((bits - 0x8000_0000) as u32),
{
    let low = (bits - 0x8000_0000) as u32;
    assert((bits as int / 0x80_0000) % 256 == (low as int / 0x80_0000) % 256);
    assert(bits as int % 0x80_0000 == low as int % 0x80_0000);
}

/// The values of positive floats grow with their bits, from zero on; those of
/// negative ones lie below.
pub proof fn lemma_values_grow(a: u32, b: u32)
    ensures
        a < b < 0x8000_0000 ==> float_value(a) < float_value(b),
        0 < a < 0x8000_0000 ==> float_value(a) > 0,
        a >= 0x8000_0000 ==> float_value(a) <= 0,
{
    assert(float_value(0) == 0);
    if a < b < 0x8000_0000 {
        lemma_value_grows(a, b);
    }
    if 0 < a < 0x8000_0000 {
        lemma_value_grows(0, a);
    }
    if a >= 0x8000_0000 {
        lemma_value_sign(a);
        let low = (a - 0x8000_0000) as u32;
        if low > 0 {
            lemma_value_grows(0, low);
        }
    }
}

/// A float is greater than another exactly where both are numbers and its
/// value is the greater.
pub proof fn lemma_greater_by_value(a: u32, b: u32)
    ensures
        is_greater(a, b) <==> !is_nan(a) && !is_nan(b) && float_value(a) > float_value(b),
{
    let x: u32 = if a < 0x8000_0000 {
        a
    } else {
        lemma_value_sign(a);
        (a - 0x8000_0000) as u32
    };
    let y: u32 = if b < 0x8000_0000 {
        b
    } else {
        lemma_value_sign(b);
        (b - 0x8000_0000) as u32
    };
    assert(float_value(0) == 0);
    if x > 0 {
        lemma_value_grows(0, x);
    }
    if y > 0 {
        lemma_value_grows(0, y);
    }
    if x < y {
        lemma_value_grows(x, y);
    } else if y < x {
        lemma_value_grows(y, x);
    }
}

/// What is no number: all bits of the exponent set, and some of the fraction.
pub proof fn lemma_nan_form(bits: u32)
    ensures
        is_nan(bits) <==> (bits as int / 0x80_0000) % 256 == 255 && bits as int % 0x80_0000 != 0,
{
}

/// The greedy choice among any logits: the first one, where that is no
/// number; otherwise a number whose value no other number exceeds, and that
/// exceeds the value of every number before it.
pub proof fn lemma_greedy_by_value(logits: Seq<u32>)
    requires
        logits.len() > 0,
    ensures
        ({
            let best = greedy_choice(logits, logits.len());
            &&& 0 <= best < logits.len()
            &&& is_nan(logits[0]) ==> best == 0
            &&& !is_nan(logits[0]) ==> !is_nan(logits[best])
            &&& !is_nan(logits[0]) ==> forall|i: int|
                0 <= i < logits.len() && !is_nan(#[trigger] logits[i]) ==> float_value(logits[i])
                    <= float_value(logits[best])
            &&& !is_nan(logits[0]) ==> forall|i: int|
                0 <= i < best && !is_nan(#[trigger] logits[i]) ==> float_value(logits[i])
                    < float_value(logits[best])
        }),
{
    lemma_greedy_prefix(logits, logits.len());
}

proof fn lemma_greedy_prefix(logits: Seq<u32>, n: nat)
    requires
        0 < n <= logits.len(),
    ensures
        ({
            let best = greedy_choice(logits, n);
            &&& 0 <= best < n
            &&& is_nan(logits[0]) ==> best == 0
            &&& !is_nan(logits[0]) ==> !is_nan(logits[best])
            &&& !is_nan(logits[0]) ==> forall|i: int|
                0 <= i < n && !is_nan(#[trigger] logits[i]) ==> float_value(logits[i])
                    <= float_value(logits[best])
            &&& !is_nan(logits[0]) ==> forall|i: int|
                0 <= i < best && !is_nan(#[trigger] logits[i]) ==> float_value(logits[i])
                    < float_value(logits[best])
        }),
    decreases n,
{
    if n > 1 {
        lemma_greedy_prefix(logits, (n - 1) as nat);
        let before = greedy_choice(logits, (n - 1) as nat);
        lemma_greater_by_value(logits[n - 1], logits[before]);
    }
}

/// The total order by which candidates are ranked: numbers by value, of the
/// two zeros the positive one higher, and what is no number beyond the
/// infinity of its sign.
pub proof fn lemma_ranked_by_value(a: u32, b: u32)
    ensures
        !is_nan(a) && !is_nan(b) && float_value(a) > float_value(b) ==> order_key(a) > order_key(b),
        !is_nan(a) && !is_nan(b) && float_value(a) == float_value(b) && a != b ==> (order_key(a)
            > order_key(b) <==> a < b),
        order_key(a) == order_key(b) <==> a == b,
        a < 0x8000_0000 && b >= 0x8000_0000 ==> order_key(a) > order_key(b),
        a < b < 0x8000_0000 ==> order_key(a) < order_key(b),
        0x8000_0000 <= a < b ==> order_key(a) > order_key(b),
{
    lemma_greater_by_value(a, b);
    lemma_greater_by_value(b, a);
    if a < 0x8000_0000 && b < 0x8000_0000 {
        if a < b {
            lemma_value_grows(a, b);
        } else if b < a {
            lemma_value_grows(b, a);
        }
    } else if a >= 0x8000_0000 && b >= 0x8000_0000 {
        lemma_value_sign(a);
        lemma_value_sign(b);
        if a < b {
            lemma_value_grows((a - 0x8000_0000) as u32, (b - 0x8000_0000) as u32);
        } else if b < a {
            lemma_value_grows((b - 0x8000_0000) as u32, (a - 0x8000_0000) as u32);
        }
    }
}

/// What a ranking of `k` of the logits is, in values: `k` different ids, each
/// with a value no less than that of the next; no id that is left out has a
/// greater value than one that is in; equal values stand in the order of
/// their ids, with a negative zero behind a positive one.
pub proof fn lemma_ranking_by_value(logits: Seq<u32>, ids: Seq<u32>, k: nat)
    requires
        is_ranking(logits, ids, k),
        forall|i: int| 0 <= i < logits.len() ==> !is_nan(#[trigger] logits[i]),
    ensures
        ids.len() == k,
        forall|i: int| 0 <= i < k ==> (#[trigger] ids[i] as int) < logits.len(),
        forall|i: int, j: int| 0 <= i < j < k ==> ids[i] != ids[j],
        forall|i: int, j: int|
            0 <= i < j < k ==> float_value(logits[#[trigger] ids[i] as int]) >= float_value(
                logits[#[trigger] ids[j] as int],
            ),
        forall|i: int, j: int|
            0 <= i < j < k && logits[#[trigger] ids[i] as int] == logits[#[trigger] ids[j] as int]
                ==> ids[i] < ids[j],
        forall|x: u32, i: int|
            (x as int) < logits.len() && !(#[trigger] ids.contains(x)) && 0 <= i < k
                ==> float_value(logits[x as int]) <= float_value(logits[#[trigger] ids[i] as int]),
{
    assert forall|i: int, j: int| 0 <= i < j < k implies float_value(
        logits[#[trigger] ids[i] as int],
    ) >= float_value(logits[#[trigger] ids[j] as int]) by {
        assert(ahead(logits, ids[i], ids[j]));
        lemma_ranked_by_value(logits[ids[j] as int], logits[ids[i] as int]);
    }
    assert forall|i: int, j: int|
        0 <= i < j < k && logits[#[trigger] ids[i] as int] == logits[#[trigger] ids[j] as int] implies ids[i]
        < ids[j] by {
        assert(ahead(logits, ids[i], ids[j]));
    }
    assert forall|x: u32, i: int|
        (x as int) < logits.len() && !(#[trigger] ids.contains(x)) && 0 <= i < k implies float_value(
        logits[x as int],
    ) <= float_value(logits[#[trigger] ids[i] as int]) by {
        assert(ahead(logits, ids[i], x));
        lemma_ranked_by_value(logits[x as int], logits[ids[i] as int]);
    }
}

/// Bit `j` of a word.
pub open spec fn bit(x: u64, j: u64) -> u64 {
    (x >> j) & 1
}

/// A draw moves the state on as xoshiro256 does, bit by bit: three words are
/// sums of others, with the second shifted in by 17, and the fourth turns by
/// 45.
pub proof fn lemma_step_bits(s: (u64, u64, u64, u64), j: u64)
    requires
        j < 64,
    ensures
        ({
            let n = stepped(s);
            let far = if j < 19 {
                (j + 45) as u64
            } else {
                (j - 19) as u64
            };
            &&& bit(n.0, j) == bit(s.0, j) ^ bit(s.1, j) ^ bit(s.3, j)
            &&& bit(n.1, j) == bit(s.0, j) ^ bit(s.1, j) ^ bit(s.2, j)
            &&& j < 17 ==> bit(n.2, j) == bit(s.0, j) ^ bit(s.2, j)
            &&& j >= 17 ==> bit(n.2, j) == bit(s.0, j) ^ bit(s.2, j) ^ bit(s.1, (j - 17) as u64)
            &&& bit(n.3, far) == bit(s.1, j) ^ bit(s.3, j)
        }),
{
    let (a, b, c, d) = s;
    assert(((a ^ (d ^ b)) >> j) & 1 == ((a >> j) & 1) ^ ((b >> j) & 1) ^ ((d >> j) & 1))
        by (bit_vector)
        requires
            j < 64,
    ;
    assert(((b ^ (c ^ a)) >> j) & 1 == ((a >> j) & 1) ^ ((b >> j) & 1) ^ ((c >> j) & 1))
        by (bit_vector)
        requires
            j < 64,
    ;
    if j < 17 {
        assert((((c ^ a) ^ (b << 17u64)) >> j) & 1 == ((a >> j) & 1) ^ ((c >> j) & 1))
            by (bit_vector)
            requires
                j < 17,
        ;
    } else {
        let k = (j - 17) as u64;
        assert((((c ^ a) ^ (b << 17u64)) >> j) & 1 == ((a >> j) & 1) ^ ((c >> j) & 1) ^ ((b >> k)
            & 1)) by (bit_vector)
            requires
                17 <= j < 64,
                k == j - 17,
        ;
    }
    let e = d ^ b;
    if j < 19 {
        let far = (j + 45) as u64;
        assert((((e << 45u64) | (e >> 19u64)) >> far) & 1 == (e >> j) & 1) by (bit_vector)
            requires
                j < 19,
                far == j + 45,
        ;
    } else {
        let far = (j - 19) as u64;
        assert((((e << 45u64) | (e >> 19u64)) >> far) & 1 == (e >> j) & 1) by (bit_vector)
            requires
                19 <= j < 64,
                far == j - 19,
        ;
    }
    assert(((d ^ b) >> j) & 1 == ((b >> j) & 1) ^ ((d >> j) & 1)) by (bit_vector)
        requires
            j < 64,
    ;
}

/// What is drawn, in whole numbers: the sum of the first and the last word,
/// turned by 23 bits, plus the first word, all modulo 2^64.
pub proof fn lemma_drawn_value(s: (u64, u64, u64, u64))
    ensures
        ({
            let m: int = 0x1_0000_0000_0000_0000;
            let sum = (s.0 + s.3) % m;
            drawn(s) == (sum % 0x200_0000_0000 * 0x80_0000 + sum / 0x200_0000_0000 + s.0) % m
        }),
{
    let t: u64 = wrap_add(s.0, s.3);
    assert(((t << 23u64) | (t >> 41u64)) == (t % 0x200_0000_0000) * 0x80_0000 + t / 0x200_0000_0000)
        by (bit_vector);
}

/// Seeding is a walk over one counter: the words of a seed but its first are
/// the first words of the seeds one golden step further on each.
pub proof fn lemma_seed_walk(seed: u64)
    ensures
        ({
            let m: int = 0x1_0000_0000_0000_0000;
            let g: int = 0x9E37_79B9_7F4A_7C15;
            &&& seeded(seed).1 == seeded(((seed + g) % m) as u64).0
            &&& seeded(seed).2 == seeded(((seed + 2 * g) % m) as u64).0
            &&& seeded(seed).3 == seeded(((seed + 3 * g) % m) as u64).0
        }),
{
    let m: int = 0x1_0000_0000_0000_0000;
    let g: int = 0x9E37_79B9_7F4A_7C15;
    let (a, b, c) = (
        ((seed + g) % m) as u64,
        ((seed + 2 * g) % m) as u64,
        ((seed + 3 * g) % m) as u64,
    );
    lemma_counter_value(seed, 2);
    lemma_counter_value(seed, 3);
    lemma_counter_value(seed, 4);
    lemma_counter_value(a, 1);
    lemma_counter_value(b, 1);
    lemma_counter_value(c, 1);
    assert(counter(a, 1) == counter(seed, 2));
    assert(counter(b, 1) == counter(seed, 3));
    assert(counter(c, 1) == counter(seed, 4));
}

proof fn lemma_counter_value(seed: u64, n: nat)
    requires
        n <= 4,
    ensures
        counter(seed, n) == (seed + n * 0x9E37_79B9_7F4A_7C15) % 0x1_0000_0000_0000_0000,
    decreases n,
{
    if n > 0 {
        lemma_counter_value(seed, (n - 1) as nat);
        reveal(bumped);
    }
}

} // verus!
