//! The BPE merge engine.
//!
//! Symbols start as one vocab id per character (after `" "` becomes `"▁"`),
//! with unknown characters expanded to `<0xXX>` byte tokens *before* merging.
//! Then the lowest-ranked adjacent pair is merged repeatedly; ties break on
//! the leftmost position.

use vstd::multiset::*;
use vstd::prelude::*;
use vstd::string::*;
use vstd::utf8::*;

use crate::heap::{Candidate, CandidateHeap};
use crate::text::chars_of;
use crate::vocab::{Vocab, VocabView};

verus! {

/// The stand-in for a space inside pieces.
pub const SPACE_MARK: char = '\u{2581}';

/// A character as pieces spell it.
pub open spec fn marked(c: char) -> char {
    if c == ' ' {
        SPACE_MARK
    } else {
        c
    }
}

/// The byte tokens that spell `bytes`.
pub open spec fn byte_ids(v: VocabView, bytes: Seq<u8>) -> Seq<u32> {
    bytes.map_values(|b: u8| v.bytes[b as int])
}

/// The tokens one character starts as: its own token, or the byte tokens of
/// its UTF-8 encoding.
pub open spec fn char_ids(v: VocabView, c: char) -> Seq<u32> {
    match v.id_of(seq![marked(c)]) {
        Some(id) => seq![id],
        None => byte_ids(v, encode_utf8(seq![marked(c)])),
    }
}

/// The tokens a text starts as.
pub open spec fn symbols(v: VocabView, text: Seq<char>) -> Seq<u32>
    decreases text.len(),
{
    if text.len() == 0 {
        Seq::empty()
    } else {
        symbols(v, text.drop_last()) + char_ids(v, text.last())
    }
}

/// Whether the tokens at `i` and `i + 1` can merge.
pub open spec fn mergeable(v: VocabView, ids: Seq<u32>, i: int) -> bool {
    0 <= i < ids.len() - 1 && v.merge(ids[i], ids[i + 1]) is Some
}

/// Rank of the merge at `i`.
pub open spec fn rank_at(v: VocabView, ids: Seq<u32>, i: int) -> u32 {
    (v.merge(ids[i], ids[i + 1])->0).0
}

/// The merge at `i` goes first: no other has a lower rank, and none of the
/// same rank stands further left.
pub open spec fn goes_first(v: VocabView, ids: Seq<u32>, i: int) -> bool {
    &&& mergeable(v, ids, i)
    &&& forall|j: int| #[trigger]
        mergeable(v, ids, j) ==> {
            ||| rank_at(v, ids, i) < rank_at(v, ids, j)
            ||| rank_at(v, ids, i) == rank_at(v, ids, j) && i <= j
        }
}

/// `ids` with the pair at `i` replaced by its merged token.
pub open spec fn merged_at(v: VocabView, ids: Seq<u32>, i: int) -> Seq<u32> {
    ids.take(i).push((v.merge(ids[i], ids[i + 1])->0).1) + ids.skip(i + 2)
}

/// The tokens left when merges have been applied, the first to go first,
/// until none applies.
pub open spec fn merge_all(v: VocabView, ids: Seq<u32>) -> Seq<u32>
    decreases ids.len(),
{
    if exists|i: int| goes_first(v, ids, i) {
        merge_all(v, merged_at(v, ids, choose|i: int| goes_first(v, ids, i)))
    } else {
        ids
    }
}

/// The encoding of a text that holds no special tokens.
pub open spec fn segment_ids(v: VocabView, text: Seq<char>) -> Seq<u32> {
    merge_all(v, symbols(v, text))
}

/// The merge that goes first is applied first.
pub proof fn lemma_merge_step(v: VocabView, ids: Seq<u32>, i: int)
    requires
        goes_first(v, ids, i),
    ensures
        merge_all(v, ids) == merge_all(v, merged_at(v, ids, i)),
{
    let j = choose|j: int| goes_first(v, ids, j);
    assert(goes_first(v, ids, j));
    assert(mergeable(v, ids, i) && mergeable(v, ids, j));
    assert(i == j);
}

/// A pair of neighbours that the merge table joins stands at `i`.
pub open spec fn joins(v: VocabView, ids: Seq<u32>, i: int) -> bool {
    0 <= i < ids.len() - 1 && v.merges.contains_key((ids[i], ids[i + 1]))
}

/// `next` is `ids` with one pair of neighbours, at `i`, joined as the merge
/// table says: everything else stays. The pair has the lowest rank of all
/// that could be joined, and none of its rank stands further left.
pub open spec fn merge_step(v: VocabView, ids: Seq<u32>, next: Seq<u32>, i: int) -> bool {
    &&& joins(v, ids, i)
    &&& forall|j: int| #[trigger]
        joins(v, ids, j) ==> v.merges[(ids[i], ids[i + 1])].0 <= v.merges[(ids[j], ids[j + 1])].0
    &&& forall|j: int| #[trigger]
        joins(v, ids, j) && j < i ==> v.merges[(ids[i], ids[i + 1])].0 < v.merges[(
            ids[j],
            ids[j + 1],
        )].0
    &&& next.len() == ids.len() - 1
    &&& next[i] == v.merges[(ids[i], ids[i + 1])].1
    &&& forall|j: int| 0 <= j < i ==> next[j] == ids[j]
    &&& forall|j: int| i < j < next.len() ==> next[j] == ids[j + 1]
}

/// `next` follows from `ids` by a merge step.
pub open spec fn steps_to(v: VocabView, ids: Seq<u32>, next: Seq<u32>) -> bool {
    exists|i: int| merge_step(v, ids, next, i)
}

/// Row `k + 1` follows from row `k` by a merge step.
pub open spec fn follows(v: VocabView, rows: Seq<Seq<u32>>, k: int) -> bool {
    steps_to(v, rows[k], rows[k + 1])
}

/// The place of a merge step.
proof fn lemma_step_place(v: VocabView, ids: Seq<u32>, next: Seq<u32>) -> (i: int)
    requires
        steps_to(v, ids, next),
    ensures
        merge_step(v, ids, next, i),
{
    choose|i: int| merge_step(v, ids, next, i)
}

/// A run of merge steps: each row of `rows` follows from the one before.
pub open spec fn merge_run(v: VocabView, rows: Seq<Seq<u32>>) -> bool {
    &&& rows.len() > 0
    &&& forall|k: int| 0 <= k < rows.len() - 1 ==> #[trigger] follows(v, rows, k)
}

proof fn lemma_some_first(v: VocabView, ids: Seq<u32>, n: int) -> (best: int)
    requires
        0 <= n < ids.len(),
        exists|i: int| i < n && #[trigger] mergeable(v, ids, i),
    ensures
        best < n,
        mergeable(v, ids, best),
        forall|j: int| #[trigger]
            mergeable(v, ids, j) && j < n ==> {
                ||| rank_at(v, ids, best) < rank_at(v, ids, j)
                ||| rank_at(v, ids, best) == rank_at(v, ids, j) && best <= j
            },
    decreases n,
{
    let i = choose|i: int| i < n && #[trigger] mergeable(v, ids, i);
    if exists|i: int| i < n - 1 && #[trigger] mergeable(v, ids, i) {
        let before = lemma_some_first(v, ids, n - 1);
        if mergeable(v, ids, n - 1) && rank_at(v, ids, n - 1) < rank_at(v, ids, before) {
            n - 1
        } else {
            before
        }
    } else {
        assert(i == n - 1);
        i
    }
}

/// Where a pair can be joined, one goes first.
proof fn lemma_first_exists(v: VocabView, ids: Seq<u32>, i: int)
    requires
        mergeable(v, ids, i),
    ensures
        exists|k: int| goes_first(v, ids, k),
{
    let best = lemma_some_first(v, ids, ids.len() - 1);
    assert(goes_first(v, ids, best));
}

proof fn lemma_merged_is_step(v: VocabView, ids: Seq<u32>, i: int)
    requires
        goes_first(v, ids, i),
    ensures
        merge_step(v, ids, merged_at(v, ids, i), i),
{
    assert(mergeable(v, ids, i));
    assert forall|j: int| #[trigger] joins(v, ids, j) implies v.merges[(ids[i], ids[i + 1])].0
        <= v.merges[(ids[j], ids[j + 1])].0 by {
        assert(mergeable(v, ids, j));
    }
    assert forall|j: int| #[trigger] joins(v, ids, j) && j < i implies v.merges[(
        ids[i],
        ids[i + 1],
    )].0 < v.merges[(ids[j], ids[j + 1])].0 by {
        assert(mergeable(v, ids, j));
    }
}

proof fn lemma_run_exists(v: VocabView, ids: Seq<u32>) -> (rows: Seq<Seq<u32>>)
    ensures
        merge_run(v, rows),
        rows[0] == ids,
        rows.last() == merge_all(v, ids),
        forall|i: int| !#[trigger] joins(v, merge_all(v, ids), i),
    decreases ids.len(),
{
    if exists|i: int| goes_first(v, ids, i) {
        let i = choose|i: int| goes_first(v, ids, i);
        assert(mergeable(v, ids, i));
        let next = merged_at(v, ids, i);
        lemma_merged_is_step(v, ids, i);
        let rest = lemma_run_exists(v, next);
        let rows = seq![ids] + rest;
        assert forall|k: int| 0 <= k < rows.len() - 1 implies #[trigger] follows(v, rows, k) by {
            if k == 0 {
                assert(rows[1] == rest[0]);
                assert(merge_step(v, rows[0], rows[1], i));
            } else {
                assert(rows[k] == rest[k - 1] && rows[k + 1] == rest[k]);
                assert(follows(v, rest, k - 1));
                let j = lemma_step_place(v, rest[k - 1], rest[k]);
                assert(merge_step(v, rows[k], rows[k + 1], j));
            }
        }
        rows
    } else {
        assert forall|i: int| !#[trigger] joins(v, ids, i) by {
            if joins(v, ids, i) {
                assert(mergeable(v, ids, i));
                lemma_first_exists(v, ids, i);
            }
        }
        seq![ids]
    }
}

/// A text of any length is encoded by merging: from the tokens of its
/// characters a run of merge steps leads to its encoding, in which no two
/// neighbours can be joined any more.
pub proof fn lemma_fully_merged(v: VocabView, text: Seq<char>)
    ensures
        forall|i: int|
            0 <= i < segment_ids(v, text).len() - 1 ==> !v.merges.contains_key(
                (#[trigger] segment_ids(v, text)[i], segment_ids(v, text)[i + 1]),
            ),
        exists|rows: Seq<Seq<u32>>| #[trigger]
            merge_run(v, rows) && rows[0] == symbols(v, text) && rows.last() == segment_ids(
                v,
                text,
            ),
{
    let ids = segment_ids(v, text);
    let rows = lemma_run_exists(v, symbols(v, text));
    assert forall|i: int| 0 <= i < ids.len() - 1 implies !v.merges.contains_key(
        (#[trigger] ids[i], ids[i + 1]),
    ) by {
        assert(!joins(v, ids, i));
    }
    assert(merge_run(v, rows) && rows[0] == symbols(v, text) && rows.last() == ids);
}

/// A run of merge steps can go only one way.
pub proof fn lemma_run_is_forced(v: VocabView, a: Seq<Seq<u32>>, b: Seq<Seq<u32>>)
    requires
        merge_run(v, a),
        merge_run(v, b),
        a[0] == b[0],
        forall|i: int| !#[trigger] joins(v, a.last(), i),
        forall|i: int| !#[trigger] joins(v, b.last(), i),
    ensures
        a == b,
{
    lemma_rows_agree(v, a, b, if a.len() < b.len() {
        a.len() as int
    } else {
        b.len() as int
    });
    if a.len() < b.len() {
        let k = a.len() - 1;
        assert(follows(v, b, k));
        let i = lemma_step_place(v, b[k], b[k + 1]);
        assert(joins(v, a.last(), i));
    } else if b.len() < a.len() {
        let k = b.len() - 1;
        assert(follows(v, a, k));
        let i = lemma_step_place(v, a[k], a[k + 1]);
        assert(joins(v, b.last(), i));
    }
    assert(a =~= b);
}

proof fn lemma_rows_agree(v: VocabView, a: Seq<Seq<u32>>, b: Seq<Seq<u32>>, n: int)
    requires
        merge_run(v, a),
        merge_run(v, b),
        a[0] == b[0],
        0 <= n <= a.len(),
        n <= b.len(),
    ensures
        forall|k: int| 0 <= k < n ==> a[k] == b[k],
    decreases n,
{
    if n > 1 {
        lemma_rows_agree(v, a, b, n - 1);
        let k = n - 2;
        assert(a[k] == b[k]);
        assert(follows(v, a, k));
        let i = lemma_step_place(v, a[k], a[k + 1]);
        assert(follows(v, b, k));
        let j = lemma_step_place(v, b[k], b[k + 1]);
        assert(joins(v, a[k], i) && joins(v, a[k], j));
        assert(i == j);
        assert(a[k + 1] =~= b[k + 1]);
    }
}

/// The tokens that a text starts as: those of its parts, one part after the
/// other. A character with a token of its own is that token, a space that of
/// the space mark; any other character is spelled in byte tokens, a space as
/// its mark is.
pub proof fn lemma_start_tokens(v: VocabView, a: Seq<char>, b: Seq<char>, c: char)
    ensures
        symbols(v, a + b) == symbols(v, a) + symbols(v, b),
        c != ' ' && v.pieces.contains(seq![c]) ==> symbols(v, seq![c]) == seq![
            v.pieces.index_of(seq![c]) as u32,
        ],
        v.pieces.contains(seq!['\u{2581}']) ==> symbols(v, seq![' ']) == seq![
            v.pieces.index_of(seq!['\u{2581}']) as u32,
        ],
        c != ' ' && !v.pieces.contains(seq![c]) ==> {
            let bytes = encode_utf8(seq![c]);
            &&& symbols(v, seq![c]).len() == bytes.len()
            &&& forall|k: int|
                0 <= k < bytes.len() ==> #[trigger] symbols(v, seq![c])[k] == v.bytes[bytes[k] as int]
        },
        !v.pieces.contains(seq!['\u{2581}']) ==> {
            let bytes = encode_utf8(seq!['\u{2581}']);
            &&& symbols(v, seq![' ']).len() == bytes.len()
            &&& forall|k: int|
                0 <= k < bytes.len() ==> #[trigger] symbols(v, seq![' '])[k]
                    == v.bytes[bytes[k] as int]
        },
    decreases b.len(),
{
    reveal_with_fuel(symbols, 2);
    assert(seq![c].drop_last() =~= Seq::empty());
    assert(seq![' '].drop_last() =~= Seq::empty());
    assert(Seq::<u32>::empty() + char_ids(v, c) =~= char_ids(v, c));
    assert(Seq::<u32>::empty() + char_ids(v, ' ') =~= char_ids(v, ' '));
    if b.len() == 0 {
        assert(a + b =~= a);
        assert(symbols(v, a) + symbols(v, b) =~= symbols(v, a));
    } else {
        lemma_start_tokens(v, a, b.drop_last(), c);
        assert((a + b).drop_last() =~= a + b.drop_last());
        assert((a + b).last() == b.last());
        assert((symbols(v, a) + symbols(v, b.drop_last())) + char_ids(v, b.last()) =~= symbols(v, a)
            + (symbols(v, b.drop_last()) + char_ids(v, b.last())));
    }
}

/// One entry in the doubly linked symbol list. `usize::MAX` marks "none".
struct Sym {
    id: u32,
    prev: usize,
    next: usize,
    alive: bool,
}

const NONE: usize = usize::MAX;

/// The `k`-th live symbol is linked to its neighbours.
spec fn node_ok(syms: Seq<Sym>, live: Seq<int>, k: int) -> bool {
    &&& 0 <= live[k] < syms.len()
    &&& syms[live[k]].alive
    &&& syms[live[k]].next == (if k + 1 < live.len() {
        live[k + 1]
    } else {
        NONE as int
    })
    &&& syms[live[k]].prev == (if k > 0 {
        live[k - 1]
    } else {
        NONE as int
    })
}

/// `live` holds the positions of the list `syms`, in list order.
spec fn linked(syms: Seq<Sym>, live: Seq<int>) -> bool {
    &&& syms.len() <= usize::MAX
    &&& forall|j: int, k: int| 0 <= j < k < live.len() ==> live[j] < live[k]
    &&& forall|k: int| 0 <= k < live.len() ==> #[trigger] node_ok(syms, live, k)
    &&& forall|p: int| 0 <= p < syms.len() && (#[trigger] syms[p]).alive ==> live.contains(p)
}

/// The ids of the live symbols.
spec fn live_ids(syms: Seq<Sym>, live: Seq<int>) -> Seq<u32> {
    live.map_values(|p: int| syms[p].id)
}

/// The candidate for the merge at `k`.
spec fn candidate_at(v: VocabView, ids: Seq<u32>, live: Seq<int>, k: int) -> Candidate {
    Candidate {
        rank: rank_at(v, ids, k),
        pos: live[k] as usize,
        left: ids[k],
        right: ids[k + 1],
    }
}

/// The merge at `k` is among the candidates.
spec fn offered(
    v: VocabView,
    ids: Seq<u32>,
    live: Seq<int>,
    heap: Multiset<Candidate>,
    k: int,
) -> bool {
    heap.count(candidate_at(v, ids, live, k)) > 0
}

/// Every candidate names a position of the list.
spec fn in_range(heap: Multiset<Candidate>, n: nat) -> bool {
    forall|d: Candidate| #[trigger] heap.count(d) > 0 ==> d.pos < n
}

/// Appends a symbol to the list.
fn push_sym(syms: &mut Vec<Sym>, id: u32)
    requires
        linked(old(syms)@, Seq::new(old(syms)@.len(), |i: int| i)),
    ensures
        final(syms)@.len() == old(syms)@.len() + 1,
        linked(final(syms)@, Seq::new(final(syms)@.len(), |i: int| i)),
        live_ids(final(syms)@, Seq::new(final(syms)@.len(), |i: int| i)) == live_ids(
            old(syms)@,
            Seq::new(old(syms)@.len(), |i: int| i),
        ).push(id),
{
    let ghost before = syms@;
    let ghost old_live = Seq::new(before.len(), |i: int| i);
    let pos: usize = syms.len();
    let prev: usize = if pos == 0 {
        NONE
    } else {
        pos - 1
    };
    syms.push(Sym { id, prev, next: NONE, alive: true });
    assert(syms.len() == pos + 1);
    if pos > 0 {
        assert(node_ok(before, old_live, prev as int));
        let last = Sym { id: syms[prev].id, prev: syms[prev].prev, next: pos, alive: true };
        syms.set(prev, last);
    }
    proof {
        let live = Seq::new(syms@.len(), |i: int| i);
        assert forall|k: int| 0 <= k < live.len() implies #[trigger] node_ok(syms@, live, k) by {
            if k < pos {
                assert(node_ok(before, old_live, k));
            }
        }
        assert forall|p: int| 0 <= p < syms@.len() && (#[trigger] syms@[p]).alive implies live.contains(
        p) by {
            assert(live[p] == p);
        }
        assert forall|k: int| 0 <= k < pos implies live_ids(syms@, live)[k] == live_ids(
            before,
            old_live,
        )[k] by {
            assert(old_live[k] == k);
        }
        assert(live_ids(syms@, live) =~= live_ids(before, old_live).push(id));
    }
}

/// Every position from 0 to `n`, in order.
spec fn all_positions(n: nat) -> Seq<int> {
    Seq::new(n, |i: int| i)
}

/// Looks up the initial symbols of a text.
fn initial_symbols(vocab: &Vocab, text: &str) -> (syms: Vec<Sym>)
    ensures
        linked(syms@, all_positions(syms@.len())),
        live_ids(syms@, all_positions(syms@.len())) == symbols(vocab@, text@),
{
    let chars = chars_of(text);
    let mut syms: Vec<Sym> = Vec::new();
    assert(live_ids(syms@, all_positions(0)) =~= symbols(vocab@, chars@.take(0)));
    let mut i: usize = 0;
    while i < chars.len()
        invariant
            i <= chars@.len(),
            linked(syms@, all_positions(syms@.len())),
            live_ids(syms@, all_positions(syms@.len())) == symbols(vocab@, chars@.take(i as int)),
        decreases chars@.len() - i,
    {
        let c: char = chars[i];
        let ch: char = if c == ' ' {
            SPACE_MARK
        } else {
            c
        };
        let mut piece = String::new();
        piece.push(ch);
        assert(piece@ =~= seq![marked(c)]);
        let ghost before = symbols(vocab@, chars@.take(i as int));
        match vocab.id_of(piece.as_str()) {
            Some(id) => {
                push_sym(&mut syms, id);
                assert(before.push(id) =~= before + seq![id]);
            },
            None => {
                // The byte table is complete, so every character can be
                // spelled.
                let bytes = piece.as_str().as_bytes();
                let ghost spelled = byte_ids(vocab@, bytes@);
                let mut k: usize = 0;
                assert(before + spelled.take(0) =~= before);
                while k < bytes.len()
                    invariant
                        k <= bytes@.len(),
                        spelled == byte_ids(vocab@, bytes@),
                        linked(syms@, all_positions(syms@.len())),
                        live_ids(syms@, all_positions(syms@.len())) == before + spelled.take(
                            k as int,
                        ),
                    decreases bytes@.len() - k,
                {
                    push_sym(&mut syms, vocab.byte_id(bytes[k]));
                    assert((before + spelled.take(k as int)).push(spelled[k as int]) =~= before
                        + spelled.take(k + 1));
                    k = k + 1;
                }
                assert(spelled.take(k as int) =~= spelled);
            },
        }
        proof {
            assert(chars@.take(i + 1).drop_last() =~= chars@.take(i as int));
        }
        i = i + 1;
    }
    assert(chars@.take(i as int) =~= text@);
    syms
}

/// Offers the pair at `left` to the heap, where its tokens merge.
fn push_pair(vocab: &Vocab, heap: &mut CandidateHeap, syms: &Vec<Sym>, left: usize)
    requires
        left < syms@.len(),
        syms@[left as int].next != NONE ==> syms@[left as int].next < syms@.len(),
    ensures
        ({
            let next = syms@[left as int].next;
            let l = syms@[left as int].id;
            let r = syms@[next as int].id;
            if next != NONE && vocab@.merge(l, r) is Some {
                final(heap)@ == old(heap)@.insert(
                    Candidate {
                        rank: (vocab@.merge(l, r)->0).0,
                        pos: left,
                        left: l,
                        right: r,
                    },
                )
            } else {
                final(heap)@ == old(heap)@
            }
        }),
{
    let right: usize = syms[left].next;
    if right == NONE {
        return;
    }
    let l: u32 = syms[left].id;
    let r: u32 = syms[right].id;
    if let Some((rank, _)) = vocab.merge(l, r) {
        heap.push(Candidate { rank, pos: left, left: l, right: r });
    }
}

/// Every mergeable pair of the list is among the candidates.
spec fn all_offered(
    v: VocabView,
    syms: Seq<Sym>,
    live: Seq<int>,
    heap: Multiset<Candidate>,
) -> bool {
    forall|k: int|
        #![trigger mergeable(v, live_ids(syms, live), k)]
        mergeable(v, live_ids(syms, live), k) ==> offered(v, live_ids(syms, live), live, heap, k)
}

/// The heap seeded with every adjacent mergeable pair.
fn seed_heap(vocab: &Vocab, syms: &Vec<Sym>) -> (heap: CandidateHeap)
    requires
        linked(syms@, all_positions(syms@.len())),
    ensures
        all_offered(vocab@, syms@, all_positions(syms@.len()), heap@),
        in_range(heap@, syms@.len()),
{
    let mut heap = CandidateHeap::new();
    let ghost live = all_positions(syms@.len());
    let ghost ids = live_ids(syms@, live);
    let pairs: usize = syms.len().saturating_sub(1);
    let mut i: usize = 0;
    while i < pairs
        invariant
            pairs == syms@.len() - 1 || pairs == syms@.len() == 0,
            i <= pairs,
            live == all_positions(syms@.len()),
            ids == live_ids(syms@, live),
            linked(syms@, live),
            in_range(heap@, syms@.len()),
            forall|k: int|
                #![trigger mergeable(vocab@, ids, k)]
                k < i && mergeable(vocab@, ids, k) ==> offered(vocab@, ids, live, heap@, k),
        decreases pairs - i,
    {
        broadcast use group_multiset_axioms;

        assert(node_ok(syms@, live, i as int) && node_ok(syms@, live, i + 1));
        push_pair(vocab, &mut heap, syms, i);
        i = i + 1;
    }
    heap
}

/// The pair at `k` was popped from the heap and still stands: it goes first.
proof fn lemma_popped_first(
    v: VocabView,
    syms: Seq<Sym>,
    live: Seq<int>,
    heap: Multiset<Candidate>,
    c: Candidate,
    k: int,
)
    requires
        linked(syms, live),
        all_offered(v, syms, live, heap),
        forall|d: Candidate| #[trigger] heap.count(d) > 0 ==> c.precedes(d),
        0 <= k < live.len() - 1,
        live[k] == c.pos,
        live_ids(syms, live)[k] == c.left,
        live_ids(syms, live)[k + 1] == c.right,
        v.merge(c.left, c.right) is Some,
        (v.merge(c.left, c.right)->0).0 == c.rank,
    ensures
        goes_first(v, live_ids(syms, live), k),
{
    let ids = live_ids(syms, live);
    assert forall|j: int| #[trigger] mergeable(v, ids, j) implies {
        ||| rank_at(v, ids, k) < rank_at(v, ids, j)
        ||| rank_at(v, ids, k) == rank_at(v, ids, j) && k <= j
    } by {
        assert(offered(v, ids, live, heap, j));
        let d = candidate_at(v, ids, live, j);
        assert(c.precedes(d));
        assert(node_ok(syms, live, j) && node_ok(syms, live, k));
        if j < k {
            assert(live[j] < live[k]);
        }
    }
}

/// A popped candidate that no longer stands offered no live pair.
proof fn lemma_stale(
    v: VocabView,
    syms: Seq<Sym>,
    live: Seq<int>,
    heap: Multiset<Candidate>,
    c: Candidate,
)
    requires
        linked(syms, live),
        all_offered(v, syms, live, heap),
        forall|k: int|
            #![trigger live[k]]
            0 <= k < live.len() - 1 && live[k] == c.pos ==> !(live_ids(syms, live)[k] == c.left
                && live_ids(syms, live)[k + 1] == c.right),
    ensures
        all_offered(v, syms, live, heap.remove(c)),
{
    broadcast use group_multiset_axioms;

    let ids = live_ids(syms, live);
    assert forall|k: int| #[trigger] mergeable(v, ids, k) implies offered(
        v,
        ids,
        live,
        heap.remove(c),
        k,
    ) by {
        assert(offered(v, ids, live, heap, k));
        assert(node_ok(syms, live, k));
        assert(candidate_at(v, ids, live, k) != c);
    }
}

/// The list `syms` when the symbol at `right` has been merged into its left
/// neighbour `pos`.
spec fn unlinked(syms: Seq<Sym>, pos: int, right: int, merged: u32) -> Seq<Sym> {
    let after = syms[right].next;
    let joined = syms.update(
        pos,
        Sym { id: merged, next: after, ..syms[pos] },
    ).update(right, Sym { alive: false, ..syms[right] });
    if after != NONE {
        joined.update(after as int, Sym { prev: pos as usize, ..syms[after as int] })
    } else {
        joined
    }
}

proof fn lemma_unlinked(syms: Seq<Sym>, live: Seq<int>, k: int, merged: u32)
    requires
        linked(syms, live),
        0 <= k < live.len() - 1,
    ensures
        ({
            let next = unlinked(syms, live[k], live[k + 1], merged);
            let rest = live.remove(k + 1);
            let ids = live_ids(syms, live);
            &&& next.len() == syms.len()
            &&& linked(next, rest)
            &&& live_ids(next, rest) == ids.take(k).push(merged) + ids.skip(k + 2)
        }),
{
    let next = unlinked(syms, live[k], live[k + 1], merged);
    let rest = live.remove(k + 1);
    let ids = live_ids(syms, live);
    assert(node_ok(syms, live, k));
    assert(node_ok(syms, live, k + 1));
    if k + 2 < live.len() {
        assert(node_ok(syms, live, k + 2));
        assert(live[k + 1] < live[k + 2]);
    }
    assert(live[k] < live[k + 1]);
    assert forall|j: int, m: int| 0 <= j < m < rest.len() implies rest[j] < rest[m] by {
        let jj = if j <= k { j } else { j + 1 };
        let mm = if m <= k { m } else { m + 1 };
        assert(live[jj] < live[mm]);
    }
    assert forall|j: int| 0 <= j < rest.len() implies #[trigger] node_ok(next, rest, j) by {
        let jj = if j <= k { j } else { j + 1 };
        assert(node_ok(syms, live, jj));
        if jj < k {
            assert(live[jj] < live[k]);
            assert(live[jj] < live[k + 1]);
            if k + 2 < live.len() {
                assert(live[jj] < live[k + 2]);
            }
        } else if jj > k + 2 {
            assert(live[k] < live[jj]);
            assert(live[k + 1] < live[jj]);
            assert(live[k + 2] < live[jj]);
        }
    }
    assert forall|p: int| 0 <= p < next.len() && (#[trigger] next[p]).alive implies rest.contains(
    p) by {
        assert(syms[p].alive);
        assert(live.contains(p));
        let j = choose|j: int| 0 <= j < live.len() && live[j] == p;
        assert(j != k + 1);
        let i = if j <= k { j } else { j - 1 };
        assert(rest[i] == p);
    }
    let want = ids.take(k).push(merged) + ids.skip(k + 2);
    assert forall|j: int| 0 <= j < rest.len() implies live_ids(next, rest)[j] == want[j] by {
        let jj = if j <= k { j } else { j + 1 };
        assert(node_ok(syms, live, jj));
        if jj < k {
            assert(live[jj] < live[k]);
            assert(live[jj] < live[k + 1]);
        } else if jj > k + 1 {
            assert(live[k] < live[jj]);
            assert(live[k + 1] < live[jj]);
        }
    }
    assert(live_ids(next, rest) =~= want);
}

/// Merging the pair at `k` leaves every pair offered but for the two new
/// ones, at `k - 1` and `k`.
proof fn lemma_offers_kept(
    v: VocabView,
    syms: Seq<Sym>,
    live: Seq<int>,
    k: int,
    merged: u32,
    heap: Multiset<Candidate>,
    c: Candidate,
)
    requires
        linked(syms, live),
        0 <= k < live.len() - 1,
        all_offered(v, syms, live, heap),
        live[k] == c.pos,
    ensures
        ({
            let next = unlinked(syms, live[k], live[k + 1], merged);
            let rest = live.remove(k + 1);
            let ids = live_ids(next, rest);
            forall|j: int|
                #![trigger mergeable(v, ids, j)]
                mergeable(v, ids, j) && j != k - 1 && j != k ==> offered(
                    v,
                    ids,
                    rest,
                    heap.remove(c),
                    j,
                )
        }),
{
    broadcast use group_multiset_axioms;

    lemma_unlinked(syms, live, k, merged);
    let next = unlinked(syms, live[k], live[k + 1], merged);
    let rest = live.remove(k + 1);
    let ids = live_ids(next, rest);
    let was = live_ids(syms, live);
    assert forall|j: int|
        #![trigger mergeable(v, ids, j)]
        mergeable(v, ids, j) && j != k - 1 && j != k implies offered(
        v,
        ids,
        rest,
        heap.remove(c),
        j,
    ) by {
        let jj = if j <= k { j } else { j + 1 };
        assert(ids[j] == was[jj] && ids[j + 1] == was[jj + 1]);
        assert(mergeable(v, was, jj));
        assert(offered(v, was, live, heap, jj));
        assert(rest[j] == live[jj]);
        assert(node_ok(syms, live, jj));
        if jj < k {
            assert(live[jj] < live[k]);
        } else {
            assert(live[k] < live[jj]);
        }
        assert(candidate_at(v, ids, rest, j) == candidate_at(v, was, live, jj));
        assert(candidate_at(v, ids, rest, j) != c);
    }
}

/// Applies merges, the first to go first, until none applies.
#[verifier::spinoff_prover]
fn merge_symbols(vocab: &Vocab, syms: &mut Vec<Sym>) -> (live: Ghost<Seq<int>>)
    requires
        linked(old(syms)@, all_positions(old(syms)@.len())),
    ensures
        linked(final(syms)@, live@),
        live_ids(final(syms)@, live@) == merge_all(
            vocab@,
            live_ids(old(syms)@, all_positions(old(syms)@.len())),
        ),
{
    let ghost v = vocab@;
    let ghost mut live = all_positions(syms@.len());
    let ghost start = live_ids(syms@, live);
    let n: usize = syms.len();
    let mut heap = seed_heap(vocab, syms);
    loop
        invariant
            v == vocab@,
            n == syms@.len(),
            linked(syms@, live),
            all_offered(v, syms@, live, heap@),
            in_range(heap@, n as nat),
            merge_all(v, live_ids(syms@, live)) == merge_all(v, start),
        ensures
            linked(syms@, live),
            live_ids(syms@, live) == merge_all(v, start),
        decreases live.len(), heap@.len(),
    {
        broadcast use group_multiset_axioms;

        let ghost held = heap@;
        let ghost ids = live_ids(syms@, live);
        let c = match heap.pop() {
            None => {
                proof {
                    assert forall|i: int| !goes_first(v, ids, i) by {
                        if mergeable(v, ids, i) {
                            assert(offered(v, ids, live, held, i));
                        }
                    }
                }
                break;
            },
            Some(c) => c,
        };
        // Validate against the current list: the pair may have been consumed
        // by an earlier merge.
        assert(c.pos < n);
        proof {
            assert forall|k: int| #![trigger live[k]] 0 <= k < live.len() implies node_ok(syms@, live, k) by {}
        }
        if !syms[c.pos].alive || syms[c.pos].id != c.left {
            proof {
                lemma_stale(v, syms@, live, held, c);
            }
            continue;
        }
        let ghost k = live.index_of(c.pos as int);
        proof {
            assert(live.contains(c.pos as int));
            assert(node_ok(syms@, live, k));
            assert forall|j: int| 0 <= j < live.len() && live[j] == c.pos implies j == k by {
                if j < k {
                    assert(live[j] < live[k]);
                } else if k < j {
                    assert(live[k] < live[j]);
                }
            }
            if k + 1 < live.len() {
                assert(node_ok(syms@, live, k + 1));
            }
        }
        let right: usize = syms[c.pos].next;
        if right == NONE || syms[right].id != c.right {
            proof {
                lemma_stale(v, syms@, live, held, c);
            }
            continue;
        }
        let (rank, merged) = match vocab.merge(c.left, c.right) {
            None => {
                proof {
                    assert forall|j: int| #[trigger] mergeable(v, ids, j) implies offered(
                        v,
                        ids,
                        live,
                        heap@,
                        j,
                    ) by {
                        assert(offered(v, ids, live, held, j));
                    }
                }
                continue;
            },
            Some(m) => m,
        };
        if rank != c.rank {
            proof {
                assert forall|j: int| #[trigger] mergeable(v, ids, j) implies offered(
                    v,
                    ids,
                    live,
                    heap@,
                    j,
                ) by {
                    assert(offered(v, ids, live, held, j));
                }
            }
            continue;
        }
        proof {
            lemma_popped_first(v, syms@, live, held, c, k);
            lemma_merge_step(v, ids, k);
            lemma_unlinked(syms@, live, k, merged);
            lemma_offers_kept(v, syms@, live, k, merged, held, c);
        }
        // Merge `right` into `pos`.
        let ghost before = syms@;
        let pos: usize = c.pos;
        let after: usize = syms[right].next;
        let prev: usize = syms[pos].prev;
        let joined = Sym { id: merged, prev, next: after, alive: true };
        syms.set(pos, joined);
        let gone = Sym { id: syms[right].id, prev: syms[right].prev, next: after, alive: false };
        syms.set(right, gone);
        if after != NONE {
            assert(node_ok(before, live, k + 2));
            let shifted = Sym {
                id: syms[after].id,
                prev: pos,
                next: syms[after].next,
                alive: syms[after].alive,
            };
            syms.set(after, shifted);
        }
        proof {
            assert(syms@ =~= unlinked(before, pos as int, right as int, merged));
            live = live.remove(k + 1);
            assert(node_ok(syms@, live, k));
            if k > 0 {
                assert(node_ok(syms@, live, k - 1));
            }
            if k + 1 < live.len() {
                assert(node_ok(syms@, live, k + 1));
            }
        }
        // New candidate pairs with both neighbours.
        if prev != NONE {
            push_pair(vocab, &mut heap, syms, prev);
        }
        push_pair(vocab, &mut heap, syms, pos);
        assert(all_offered(v, syms@, live, heap@)) by {
            let now = live_ids(syms@, live);
            assert forall|j: int| #[trigger] mergeable(v, now, j) implies offered(
                v,
                now,
                live,
                heap@,
                j,
            ) by {
                if j != k - 1 && j != k {
                    assert(offered(v, now, live, held.remove(c), j));
                }
            }
        }
    }
    Ghost(live)
}

/// Encodes one special-token-free segment, appending its ids to `out`.
pub fn encode_segment(vocab: &Vocab, text: &str, out: &mut Vec<u32>)
    ensures
        final(out)@ == old(out)@ + segment_ids(vocab@, text@),
{
    let ghost start = out@;
    let mut syms = initial_symbols(vocab, text);
    let Ghost(live) = merge_symbols(vocab, &mut syms);
    let ghost ids = live_ids(syms@, live);
    let ghost mut taken: int = 0;
    let mut i: usize = 0;
    assert(start + ids.take(0) =~= start);
    proof {
        if live.len() > 0 {
            assert(node_ok(syms@, live, 0));
        }
    }
    while i < syms.len()
        invariant
            i <= syms@.len(),
            linked(syms@, live),
            ids == live_ids(syms@, live),
            0 <= taken <= live.len(),
            taken > 0 ==> live[taken - 1] < i,
            taken < live.len() ==> i <= live[taken],
            out@ == start + ids.take(taken),
        decreases syms@.len() - i,
    {
        proof {
            if taken < live.len() {
                assert(node_ok(syms@, live, taken));
            }
            if taken + 1 < live.len() {
                assert(live[taken] < live[taken + 1]);
            }
        }
        if syms[i].alive {
            proof {
                assert(live.contains(i as int));
                let k = choose|k: int| 0 <= k < live.len() && live[k] == i;
                if k < taken {
                    assert(live[k] <= live[taken - 1]) by {
                        if k < taken - 1 {
                            assert(live[k] < live[taken - 1]);
                        }
                    }
                } else if k > taken {
                    assert(live[taken] < live[k]);
                }
                assert(k == taken);
                assert(ids.take(taken).push(ids[taken]) =~= ids.take(taken + 1));
                taken = taken + 1;
            }
            out.push(syms[i].id);
        }
        i = i + 1;
    }
    proof {
        if taken < live.len() {
            assert(node_ok(syms@, live, taken));
        }
        assert(ids.take(taken) =~= ids);
    }
}

} // verus!
