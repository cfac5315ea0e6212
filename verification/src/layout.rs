//! Bytes of a model file: the words they make, the blocks that a quantized
//! row consists of, and the repacking of the embedding.

use vstd::prelude::*;

use crate::weights::Q6K_ROW_WORDS;

verus! {

/// Four bytes from `i` on as a little-endian word.
pub open spec fn le_word(bytes: Seq<u8>, i: int) -> u32 {
    (bytes[i] + 256 * bytes[i + 1] + 65536 * bytes[i + 2] + 16777216 * bytes[i + 3]) as u32
}

/// The little-endian words of some bytes; what is left over behind the last
/// one counts for nothing.
pub open spec fn words_of(bytes: Seq<u8>) -> Seq<u32> {
    Seq::new((bytes.len() / 4) as nat, |k: int| le_word(bytes, 4 * k))
}

/// Byte `k` of a word, the lowest first.
pub open spec fn byte_of_word(w: u32, k: int) -> int {
    if k == 0 {
        w as int % 256
    } else if k == 1 {
        w as int / 256 % 256
    } else if k == 2 {
        w as int / 65536 % 256
    } else {
        w as int / 16777216
    }
}

/// The bytes of a word are those that it was made of.
pub proof fn lemma_word_bytes(bytes: Seq<u8>, i: int, k: int)
    requires
        0 <= i,
        i + 3 < bytes.len(),
        0 <= k < 4,
    ensures
        byte_of_word(le_word(bytes, i), k) == bytes[i + k],
{
    let (a, b, c, d) = (
        bytes[i] as int,
        bytes[i + 1] as int,
        bytes[i + 2] as int,
        bytes[i + 3] as int,
    );
    let w = a + 256 * b + 65536 * c + 16777216 * d;
    assert(le_word(bytes, i) == w);
    assert(w / 256 == b + 256 * c + 65536 * d);
    assert(w / 65536 == c + 256 * d);
    assert(w / 16777216 == d);
}

fn word_at(a: u8, b: u8, c: u8, d: u8) -> (w: u32)
    ensures
        w == a + 256 * b + 65536 * c + 16777216 * d,
{
    a as u32 + 256 * b as u32 + 65536 * c as u32 + 16777216 * d as u32
}

/// The little-endian words of some bytes.
pub fn le_words(bytes: &[u8]) -> (words: Vec<u32>)
    ensures
        words@ == words_of(bytes@),
{
    let total: usize = bytes.len();
    let n: usize = total / 4;
    let mut words: Vec<u32> = Vec::new();
    let mut k: usize = 0;
    while k < n
        invariant
            k <= n == total / 4,
            total == bytes@.len(),
            words@.len() == k,
            forall|j: int| 0 <= j < k ==> #[trigger] words@[j] == le_word(bytes@, 4 * j),
        decreases n - k,
    {
        words.push(word_at(bytes[4 * k], bytes[4 * k + 1], bytes[4 * k + 2], bytes[4 * k + 3]));
        k = k + 1;
    }
    assert(words@ =~= words_of(bytes@));
    words
}

/// The formats of quantized matrices.
#[derive(Debug, Clone, Copy, PartialEq, Eq, Structural)]
pub enum Quant {
    /// Blocks of 32 elements in 18 bytes.
    Q4,
    /// Blocks of 256 elements in 210 bytes.
    Q6K,
}

impl Quant {
    pub open spec fn elements(self) -> int {
        match self {
            Quant::Q4 => 32,
            Quant::Q6K => 256,
        }
    }

    pub open spec fn bytes(self) -> int {
        match self {
            Quant::Q4 => 18,
            Quant::Q6K => 210,
        }
    }

    /// Bytes of a row of `n_in` elements.
    pub open spec fn row_bytes(self, n_in: int) -> int {
        n_in / self.elements() * self.bytes()
    }

    /// Bytes of a row of `n_in` elements.
    pub fn row_len(self, n_in: usize) -> (n: usize)
        requires
            self.row_bytes(n_in as int) <= usize::MAX,
        ensures
            n == self.row_bytes(n_in as int),
    {
        match self {
            Quant::Q4 => n_in / 32 * 18,
            Quant::Q6K => n_in / 256 * 210,
        }
    }

    /// The bytes of row `r` of a matrix with rows of `n_in` elements: from the
    /// first to behind the last.
    pub fn row_range(self, r: usize, n_in: usize) -> (range: (usize, usize))
        requires
            (r + 1) * self.row_bytes(n_in as int) <= usize::MAX,
        ensures
            range.0 == r * self.row_bytes(n_in as int),
            range.1 == (r + 1) * self.row_bytes(n_in as int),
    {
        let ghost w = self.row_bytes(n_in as int);
        assert(w <= (r + 1) * w && (r + 1) * w == r * w + w) by (nonlinear_arith)
            requires
                r >= 0,
                w >= 0,
        ;
        let len: usize = self.row_len(n_in);
        let from: usize = r * len;
        (from, from + len)
    }
}

/// Rows lie behind one another: where one ends the next begins, and `n` rows
/// fill their matrix.
pub proof fn lemma_rows_tile(q: Quant, n_in: int, n: int, r: int)
    requires
        0 <= n_in,
        0 <= r < n,
    ensures
        0 <= r * q.row_bytes(n_in) <= (r + 1) * q.row_bytes(n_in) <= n * q.row_bytes(n_in),
{
    let w = q.row_bytes(n_in);
    assert(0 <= r * w <= (r + 1) * w <= n * w) by (nonlinear_arith)
        requires
            0 <= r,
            r + 1 <= n,
            0 <= w,
    ;
}

/// A row padded with zeros to whole words.
pub open spec fn padded_row(row: Seq<u8>) -> Seq<u8> {
    row + Seq::new((4416 - row.len()) as nat, |i: int| 0u8)
}

/// The first `n` rows of `row_bytes` each, every one padded, as words.
pub open spec fn repacked_rows(src: Seq<u8>, row_bytes: int, n: nat) -> Seq<u32>
    decreases n,
{
    if n == 0 {
        Seq::empty()
    } else {
        repacked_rows(src, row_bytes, (n - 1) as nat) + words_of(
            padded_row(src.subrange((n - 1) * row_bytes, n * row_bytes)),
        )
    }
}

/// The byte `j` of a padded row that starts at `from`.
fn row_byte(src: &[u8], from: usize, row_bytes: usize, j: usize) -> (b: u8)
    requires
        from + row_bytes <= src.len(),
        row_bytes <= 4416,
        j < 4416,
    ensures
        b == padded_row(src@.subrange(from as int, from + row_bytes))[j as int],
{
    if j < row_bytes {
        src[from + j]
    } else {
        0
    }
}

/// Repacks the rows of the embedding so that each starts at a word.
pub fn repack_rows(src: &[u8], row_bytes: usize, rows: usize) -> (words: Vec<u32>)
    requires
        row_bytes <= 4 * Q6K_ROW_WORDS,
        rows * row_bytes <= src@.len(),
    ensures
        words@ == repacked_rows(src@, row_bytes as int, rows as nat),
{
    let total: usize = src.len();
    let mut words: Vec<u32> = Vec::new();
    let mut r: usize = 0;
    let mut from: usize = 0;
    let ghost w = row_bytes as int;
    assert(0 * w == 0) by (nonlinear_arith);
    while r < rows
        invariant
            w == row_bytes,
            row_bytes <= 4416,
            r <= rows,
            from == r * w,
            rows * w <= src@.len() == total,
            words@ == repacked_rows(src@, w, r as nat),
        decreases rows - r,
    {
        assert((r + 1) * w == r * w + w && (r + 1) * w <= rows * w) by (nonlinear_arith)
            requires
                r + 1 <= rows,
                w >= 0,
        ;
        let ghost had = words@;
        let ghost row = padded_row(src@.subrange(r * w, (r + 1) * w));
        let mut k: usize = 0;
        while k < Q6K_ROW_WORDS
            invariant
                k <= Q6K_ROW_WORDS,
                w == row_bytes,
                row_bytes <= 4416,
                from == r * w,
                (r + 1) * w == from + w,
                from + row_bytes <= src@.len(),
                row == padded_row(src@.subrange(r * w, (r + 1) * w)),
                words@ == had + words_of(row).take(k as int),
            decreases Q6K_ROW_WORDS - k,
        {
            let a: u8 = row_byte(src, from, row_bytes, 4 * k);
            let b: u8 = row_byte(src, from, row_bytes, 4 * k + 1);
            let c: u8 = row_byte(src, from, row_bytes, 4 * k + 2);
            let d: u8 = row_byte(src, from, row_bytes, 4 * k + 3);
            words.push(word_at(a, b, c, d));
            assert(words_of(row)[k as int] == le_word(row, 4 * k));
            k = k + 1;
            assert(words@ =~= had + words_of(row).take(k as int));
        }
        assert(words_of(row).take(k as int) =~= words_of(row));
        r = r + 1;
        from = from + row_bytes;
    }
    words
}

/// Row `r` starts at word `r * 1104` and holds, byte for byte, what it held
/// before, and zeros behind.
pub proof fn lemma_repack_keeps_rows(src: Seq<u8>, row_bytes: int, rows: nat, r: int, j: int)
    requires
        0 <= row_bytes <= 4416,
        rows * row_bytes <= src.len(),
        0 <= r < rows,
        0 <= j < 4416,
    ensures
        repacked_rows(src, row_bytes, rows).len() == rows * 1104,
        byte_of_word(repacked_rows(src, row_bytes, rows)[r * 1104 + j / 4], j % 4) == (if j
            < row_bytes {
            src[r * row_bytes + j] as int
        } else {
            0
        }),
    decreases rows,
{
    let w = row_bytes;
    let n = (rows - 1) as nat;
    let head = repacked_rows(src, w, n);
    assert(n * w + w == rows * w) by (nonlinear_arith)
        requires
            n + 1 == rows,
    ;
    assert(0 <= n * w) by (nonlinear_arith)
        requires
            w >= 0,
    ;
    let row = padded_row(src.subrange(n * w, rows * w));
    assert(words_of(row).len() == 1104);
    lemma_repacked_len(src, w, n);
    if r == n {
        assert(repacked_rows(src, w, rows)[r * 1104 + j / 4] == le_word(row, 4 * (j / 4)));
        lemma_word_bytes(row, 4 * (j / 4), j % 4);
        assert(4 * (j / 4) + j % 4 == j);
    } else {
        lemma_repack_keeps_rows(src, w, n, r, j);
    }
}

proof fn lemma_repacked_len(src: Seq<u8>, row_bytes: int, n: nat)
    requires
        0 <= row_bytes <= 4416,
        n * row_bytes <= src.len(),
    ensures
        repacked_rows(src, row_bytes, n).len() == n * 1104,
    decreases n,
{
    if n > 0 {
        let k = (n - 1) as nat;
        assert(k * row_bytes + row_bytes == n * row_bytes) by (nonlinear_arith)
            requires
                k + 1 == n,
        ;
        assert(0 <= k * row_bytes) by (nonlinear_arith)
            requires
                row_bytes >= 0,
        ;
        lemma_repacked_len(src, row_bytes, k);
    }
}

/// A block is as large as what it packs: four bits for each element and a
/// 16-bit scale, or six bits for each, an 8-bit scale for every 16 of them and
/// a 16-bit one for all. A row is its blocks, one behind the other.
pub proof fn lemma_block_bits(q: Quant, blocks: int)
    requires
        0 <= blocks,
    ensures
        match q {
            Quant::Q4 => q.elements() == 32 && 8 * q.bytes() == 4 * q.elements() + 16,
            Quant::Q6K => q.elements() == 256 && 8 * q.bytes() == 6 * q.elements() + 8 * (
            q.elements() / 16) + 16,
        },
        q.row_bytes(blocks * q.elements()) == blocks * q.bytes(),
{
    assert(blocks * q.elements() / q.elements() == blocks) by {
        vstd::arithmetic::div_mod::lemma_div_by_multiple(blocks, q.elements());
    }
}

/// The words of some bytes hold them all, as far as they fill words, in order.
pub proof fn lemma_words_keep(bytes: Seq<u8>, j: int)
    requires
        0 <= j < bytes.len() / 4 * 4,
    ensures
        words_of(bytes).len() == bytes.len() / 4,
        byte_of_word(words_of(bytes)[j / 4], j % 4) == bytes[j],
{
    lemma_word_bytes(bytes, 4 * (j / 4), j % 4);
    assert(4 * (j / 4) + j % 4 == j);
}

} // verus!
