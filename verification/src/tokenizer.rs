//! Encode/decode entry points: special-token matching around the BPE engine,
//! and the decoder (`▁` to space, byte-token fusion).

use vstd::prelude::*;
use vstd::string::*;
use vstd::utf8::*;

use crate::bpe::{encode_segment, SPACE_MARK};
use crate::bpe::{
    byte_ids, char_ids, goes_first, lemma_fully_merged, marked, merge_all, merge_run, mergeable,
    merged_at, segment_ids, symbols,
};
use crate::detok::{
    fed, feed, flushed, lemma_feed_is_lossy, lemma_feed_text, lossy, DetokBuffer,
};
use crate::text::{
    byte_len, chars_of, decimal, has_at, lemma_byte_len_bound, lemma_encode_concat, push_decimal,
    push_range, stands_at,
};
use crate::vocab::{
    ids_fit, lemma_byte_tokens, lemma_id_names_piece, special_texts, vocab_of, TokenType,
    TokenizerMetadata, Vocab, VocabError, VocabFault, VocabView,
};

verus! {

/// Whether `encode` recognizes special tokens written out in the text.
#[derive(Debug, Clone, Copy, PartialEq, Eq, Structural)]
pub enum SpecialTokens {
    /// Match control/user-defined tokens (leftmost-longest). The prompt
    /// builder uses this for template text it generated itself.
    Match,
    /// Treat the text as plain content: `"<|turn>"` in user input stays
    /// literal text and can never inject a control token.
    Plain,
}

#[derive(Debug, Clone, Copy, PartialEq, Eq, Structural)]
pub enum DecodeError {
    /// The token id is out of range for the vocab.
    IdOutOfRange(u32),
}

impl DecodeError {
    pub open spec fn text(self) -> Seq<char> {
        match self {
            DecodeError::IdOutOfRange(id) => "token id "@ + decimal(id as nat)
                + " out of range for the vocab"@,
        }
    }

    /// The error in words.
    pub fn message(&self) -> (s: String)
        ensures
            s@ == self.text(),
    {
        match self {
            DecodeError::IdOutOfRange(id) => {
                let mut s: String = "token id ".to_owned();
                push_decimal(&mut s, *id as u64);
                s.append(" out of range for the vocab");
                s
            },
        }
    }
}

/// Entry `k` of the special list stands in `text` at `at`. A token without
/// any text stands nowhere.
pub open spec fn special_here(v: VocabView, text: Seq<char>, at: int, k: int) -> bool {
    &&& 0 <= k < v.specials.len()
    &&& v.specials[k].0.len() > 0
    &&& stands_at(text, at, v.specials[k].0)
}

/// Entry `k` is the first of the special list that stands in `text` at `at`.
pub open spec fn special_stands(v: VocabView, text: Seq<char>, at: int, k: int) -> bool {
    &&& special_here(v, text, at, k)
    &&& forall|j: int| 0 <= j < k ==> !#[trigger] special_here(v, text, at, j)
}

/// A special token is matched at `at`.
pub open spec fn opens_special(v: VocabView, text: Seq<char>, at: int) -> bool {
    exists|k: int| special_stands(v, text, at, k)
}

/// The special token matched at `at`.
pub open spec fn special_at(v: VocabView, text: Seq<char>, at: int) -> (Seq<char>, u32) {
    v.specials[choose|k: int| special_stands(v, text, at, k)]
}

/// The leftmost match.
pub open spec fn leftmost_special(v: VocabView, text: Seq<char>, at: int) -> bool {
    &&& opens_special(v, text, at)
    &&& forall|j: int| 0 <= j < at ==> !#[trigger] opens_special(v, text, j)
}

/// The ids of a text with its special tokens matched: the first match, the
/// segment before it, and the rest after it.
pub open spec fn matched_ids(v: VocabView, text: Seq<char>) -> Seq<u32>
    decreases text.len(),
{
    if exists|at: int| leftmost_special(v, text, at) {
        let at = choose|at: int| leftmost_special(v, text, at);
        let (piece, id) = special_at(v, text, at);
        proof {
            assert(opens_special(v, text, at));
            let k = choose|k: int| special_stands(v, text, at, k);
            assert(special_here(v, text, at, k));
        }
        segment_ids(v, text.take(at)).push(id) + matched_ids(v, text.skip(at + piece.len()))
    } else {
        segment_ids(v, text)
    }
}

/// The encoding of a text.
pub open spec fn encoded(v: VocabView, text: Seq<char>, specials: SpecialTokens) -> Seq<u32> {
    match specials {
        SpecialTokens::Plain => segment_ids(v, text),
        SpecialTokens::Match => matched_ids(v, text),
    }
}

/// A piece as it prints.
pub open spec fn printed(piece: Seq<char>) -> Seq<char> {
    piece.map_values(
        |c: char|
            if c == SPACE_MARK {
                ' '
            } else {
                c
            },
    )
}

/// What one token prints after `pending`, and what is withheld after it. A
/// token that is no byte ends a pending byte run.
pub open spec fn decode_step(v: VocabView, pending: Seq<u8>, id: u32) -> (Seq<char>, Seq<u8>) {
    match v.byte_of(id) {
        Some(b) => feed(pending, b),
        None => (flushed(pending) + printed(v.pieces[id as int]), Seq::empty()),
    }
}

/// What a run of tokens prints after `pending`, and what is withheld at the
/// end.
pub open spec fn decode_run(v: VocabView, pending: Seq<u8>, ids: Seq<u32>) -> (
    Seq<char>,
    Seq<u8>,
)
    decreases ids.len(),
{
    if ids.len() == 0 {
        (Seq::empty(), pending)
    } else {
        let (text, held) = decode_run(v, pending, ids.drop_last());
        let (more, rest) = decode_step(v, held, ids.last());
        (text + more, rest)
    }
}

/// The text that `ids` decode to.
pub open spec fn decoded(v: VocabView, ids: Seq<u32>) -> Seq<char> {
    let (text, held) = decode_run(v, Seq::empty(), ids);
    text + flushed(held)
}

/// Every id names a token.
pub open spec fn ids_in_range(v: VocabView, ids: Seq<u32>) -> bool {
    forall|k: int| 0 <= k < ids.len() ==> (#[trigger] ids[k] as int) < v.pieces.len()
}

/// `id` is the first of `ids` that names no token.
pub open spec fn first_out_of_range(v: VocabView, ids: Seq<u32>, id: u32) -> bool {
    exists|k: int|
        {
            &&& 0 <= k < ids.len()
            &&& #[trigger] ids[k] == id
            &&& id as int >= v.pieces.len()
            &&& ids_in_range(v, ids.take(k))
        }
}

/// The Gemma 4 tokenizer.
pub struct Tokenizer {
    vocab: Vocab,
}

impl View for Tokenizer {
    type V = VocabView;

    closed spec fn view(&self) -> VocabView {
        self.vocab@
    }
}

/// The special list as characters.
spec fn spelled(list: Seq<(Vec<char>, u32)>) -> Seq<(Seq<char>, u32)> {
    list.map_values(|e: (Vec<char>, u32)| (e.0@, e.1))
}

/// The same tokens are matched in a text and in its tail.
proof fn lemma_special_in_tail(v: VocabView, text: Seq<char>, from: int, at: int, k: int)
    requires
        0 <= from <= text.len(),
        0 <= at,
    ensures
        special_stands(v, text.skip(from), at, k) == special_stands(v, text, from + at, k),
{
    assert forall|j: int| #[trigger]
        special_here(v, text.skip(from), at, j) == special_here(v, text, from + at, j) by {
        lemma_stands_in_tail(text, from, at, v.specials[j].0);
    }
    assert(special_stands(v, text.skip(from), at, k) ==> special_stands(v, text, from + at, k)) by {
        assert forall|j: int| 0 <= j < k && !special_here(v, text.skip(from), at, j) implies
            !#[trigger] special_here(v, text, from + at, j) by {
            assert(special_here(v, text.skip(from), at, j) == special_here(v, text, from + at, j));
        }
    }
}

/// Matches stand at the same places in a text and in its tail.
proof fn lemma_stands_in_tail(text: Seq<char>, from: int, at: int, part: Seq<char>)
    requires
        0 <= from <= text.len(),
        0 <= at,
    ensures
        stands_at(text.skip(from), at, part) == stands_at(text, from + at, part),
{
    if from + at + part.len() <= text.len() {
        assert(text.skip(from).subrange(at, at + part.len()) =~= text.subrange(
            from + at,
            from + at + part.len(),
        ));
    }
}

proof fn lemma_special_unique(v: VocabView, text: Seq<char>, at: int, k: int)
    requires
        special_stands(v, text, at, k),
    ensures
        special_at(v, text, at) == v.specials[k],
{
    let j = choose|j: int| special_stands(v, text, at, j);
    assert(special_stands(v, text, at, j));
    if j < k {
        assert(!special_here(v, text, at, j));
    } else if k < j {
        assert(!special_here(v, text, at, k));
    }
}

proof fn lemma_leftmost_unique(v: VocabView, text: Seq<char>, a: int, b: int)
    requires
        leftmost_special(v, text, a),
        leftmost_special(v, text, b),
    ensures
        a == b,
{
    assert(opens_special(v, text, a) && opens_special(v, text, b));
}

impl Tokenizer {
    pub fn new(vocab: Vocab) -> (t: Self)
        ensures
            t@ == vocab@,
    {
        Tokenizer { vocab }
    }

    /// Builds the tokenizer from `tokenizer.ggml.*` metadata.
    pub fn from_metadata(meta: &TokenizerMetadata) -> (r: Result<Self, VocabError>)
        requires
            ids_fit(*meta),
        ensures
            match r {
                Ok(t) => vocab_of(*meta) == Ok::<VocabView, VocabFault>(t@) && t@.wf(),
                Err(e) => vocab_of(*meta) == Err::<VocabView, VocabFault>(e@),
            },
    {
        match Vocab::from_metadata(meta) {
            Ok(vocab) => Ok(Tokenizer { vocab }),
            Err(e) => Err(e),
        }
    }

    pub fn vocab(&self) -> (vocab: &Vocab)
        ensures
            vocab@ == self@,
    {
        &self.vocab
    }

    /// The special list, spelled out.
    fn spelled_specials(&self) -> (list: Vec<(Vec<char>, u32)>)
        ensures
            spelled(list@) == self@.specials,
    {
        let specials = self.vocab.specials();
        let mut list: Vec<(Vec<char>, u32)> = Vec::new();
        let mut k: usize = 0;
        while k < specials.len()
            invariant
                k <= specials@.len(),
                special_texts(specials@) == self@.specials,
                list@.len() == k,
                forall|j: int| 0 <= j < k ==> spelled(list@)[j] == #[trigger] self@.specials[j],
            decreases specials@.len() - k,
        {
            assert(self@.specials[k as int] == (specials@[k as int].0@, specials@[k as int].1));
            let ghost had = list@;
            list.push((chars_of(specials[k].0.as_str()), specials[k].1));
            assert forall|j: int| 0 <= j < k + 1 implies spelled(list@)[j]
                == #[trigger] self@.specials[j] by {
                if j < k {
                    assert(spelled(list@)[j] == spelled(had)[j]);
                }
            }
            k = k + 1;
        }
        assert(spelled(list@) =~= self@.specials);
        list
    }

    /// Leftmost-longest special-token match in `text[from..]`: where it
    /// starts after `from`, its length, and its id.
    fn find_special(&self, list: &Vec<(Vec<char>, u32)>, text: &Vec<char>, from: usize) -> (r:
        Option<(usize, usize, u32)>)
        requires
            spelled(list@) == self@.specials,
            from <= text@.len(),
        ensures
            match r {
                Some((start, len, id)) => {
                    let rest = text@.skip(from as int);
                    &&& leftmost_special(self@, rest, start as int)
                    &&& 0 < len
                    &&& start + len <= rest.len()
                    &&& special_at(self@, rest, start as int).0.len() == len
                    &&& special_at(self@, rest, start as int).1 == id
                },
                None => forall|at: int|
                    !#[trigger] opens_special(self@, text@.skip(from as int), at),
            },
    {
        let ghost v = self@;
        let ghost rest = text@.skip(from as int);
        let mut at: usize = from;
        while at < text.len()
            invariant
                v == self@,
                spelled(list@) == v.specials,
                rest == text@.skip(from as int),
                from <= at <= text@.len(),
                forall|j: int| 0 <= j < at - from ==> !#[trigger] opens_special(v, rest, j),
            decreases text@.len() - at,
        {
            let ghost off = at - from;
            let mut k: usize = 0;
            while k < list.len()
                invariant
                    v == self@,
                    spelled(list@) == v.specials,
                    rest == text@.skip(from as int),
                    from <= at < text@.len(),
                    off == at - from,
                    forall|j: int| 0 <= j < off ==> !#[trigger] opens_special(v, rest, j),
                    k <= list@.len(),
                    forall|j: int| 0 <= j < k ==> !#[trigger] special_here(v, text@, at as int, j),
                decreases list@.len() - k,
            {
                let piece: &Vec<char> = &list[k].0;
                assert(v.specials[k as int] == (list@[k as int].0@, list@[k as int].1));
                if piece.len() > 0 && has_at(text, at, piece) {
                    assert(special_here(v, text@, at as int, k as int));
                    assert(special_stands(v, text@, at as int, k as int));
                    proof {
                        lemma_special_in_tail(v, text@, from as int, off, k as int);
                        lemma_special_unique(v, rest, off, k as int);
                        assert(opens_special(v, rest, off));
                    }
                    return Some((at - from, piece.len(), list[k].1));
                }
                k = k + 1;
            }
            assert(!opens_special(v, rest, off)) by {
                if opens_special(v, rest, off) {
                    let k = choose|k: int| special_stands(v, rest, off, k);
                    lemma_special_in_tail(v, text@, from as int, off, k);
                    assert(special_here(v, text@, at as int, k));
                }
            }
            at = at + 1;
        }
        assert forall|j: int| !#[trigger] opens_special(v, rest, j) by {
            if opens_special(v, rest, j) {
                let k = choose|k: int| special_stands(v, rest, j, k);
                assert(special_here(v, rest, j, k));
            }
        }
        None
    }

    /// Encodes `text` to token ids. No BOS is added (the chat template
    /// inserts `<bos>` itself).
    pub fn encode(&self, text: &str, specials: SpecialTokens) -> (ids: Vec<u32>)
        ensures
            ids@ == encoded(self@, text@, specials),
    {
        let mut out: Vec<u32> = Vec::new();
        match specials {
            SpecialTokens::Plain => {
                encode_segment(&self.vocab, text, &mut out);
                assert(Seq::<u32>::empty() + segment_ids(self@, text@) =~= segment_ids(
                    self@,
                    text@,
                ));
            },
            SpecialTokens::Match => {
                let chars = chars_of(text);
                let list = self.spelled_specials();
                let n: usize = chars.len();
                let mut from: usize = 0;
                assert(chars@.skip(0) =~= text@);
                assert(out@ + matched_ids(self@, text@) =~= matched_ids(self@, text@));
                loop
                    invariant_except_break
                        from <= n,
                        n == chars@.len(),
                        chars@ == text@,
                        spelled(list@) == self@.specials,
                        out@ + matched_ids(self@, chars@.skip(from as int)) == matched_ids(
                            self@,
                            text@,
                        ),
                    ensures
                        out@ == matched_ids(self@, text@),
                    decreases n - from,
                {
                    let ghost rest = chars@.skip(from as int);
                    match self.find_special(&list, &chars, from) {
                        Some((start, len, id)) => {
                            proof {
                                let at = choose|at: int| leftmost_special(self@, rest, at);
                                lemma_leftmost_unique(self@, rest, at, start as int);
                            }
                            let mut head = String::new();
                            push_range(&mut head, &chars, from, from + start);
                            assert(head@ =~= rest.take(start as int));
                            let ghost before = out@;
                            encode_segment(&self.vocab, head.as_str(), &mut out);
                            out.push(id);
                            from = from + start + len;
                            proof {
                                assert(chars@.skip(from as int) =~= rest.skip(start + len));
                                let head_ids = segment_ids(self@, rest.take(start as int));
                                let tail_ids = matched_ids(self@, chars@.skip(from as int));
                                assert((before + head_ids).push(id) + tail_ids =~= before + (
                                head_ids.push(id) + tail_ids));
                            }
                        },
                        None => {
                            proof {
                                assert forall|at: int| !leftmost_special(self@, rest, at) by {
                                    assert(!opens_special(self@, rest, at));
                                }
                            }
                            let mut tail = String::new();
                            push_range(&mut tail, &chars, from, n);
                            assert(tail@ =~= rest);
                            encode_segment(&self.vocab, tail.as_str(), &mut out);
                            break;
                        },
                    }
                }
            },
        }
        out
    }

    /// Decodes ids to text. Special tokens render as their literal piece;
    /// invalid byte-token runs become U+FFFD.
    pub fn decode(&self, ids: &[u32]) -> (r: Result<String, DecodeError>)
        ensures
            match r {
                Ok(text) => ids_in_range(self@, ids@) && text@ == decoded(self@, ids@),
                Err(DecodeError::IdOutOfRange(id)) => first_out_of_range(self@, ids@, id),
            },
    {
        let mut buf = DetokBuffer::new();
        let mut out = String::new();
        let mut i: usize = 0;
        while i < ids.len()
            invariant
                i <= ids@.len(),
                ids_in_range(self@, ids@.take(i as int)),
                decode_run(self@, Seq::empty(), ids@.take(i as int)) == (out@, buf@),
            decreases ids@.len() - i,
        {
            assert(ids@.take(i + 1).drop_last() =~= ids@.take(i as int));
            if let Err(e) = self.decode_streaming(ids[i], &mut buf, &mut out) {
                assert(ids@[i as int] == e->IdOutOfRange_0);
                return Err(e);
            }
            i = i + 1;
        }
        assert(ids@.take(i as int) =~= ids@);
        self.flush_streaming(&mut buf, &mut out);
        Ok(out)
    }

    /// Streaming decode: appends whatever `id` makes printable to `out`,
    /// holding incomplete UTF-8 byte-token runs in `buf` (streamed deltas
    /// must never split a code point).
    pub fn decode_streaming(&self, id: u32, buf: &mut DetokBuffer, out: &mut String) -> (r: Result<
        (),
        DecodeError,
    >)
        ensures
            match r {
                Ok(()) => {
                    &&& (id as int) < self@.pieces.len()
                    &&& final(out)@ == old(out)@ + decode_step(self@, old(buf)@, id).0
                    &&& final(buf)@ == decode_step(self@, old(buf)@, id).1
                },
                Err(DecodeError::IdOutOfRange(e)) => {
                    &&& e == id
                    &&& id as int >= self@.pieces.len()
                    &&& final(out)@ == old(out)@
                    &&& final(buf)@ == old(buf)@
                },
            },
    {
        if let Some(b) = self.vocab.byte_of(id) {
            buf.push_byte(b, out);
            return Ok(());
        }
        let piece = match self.vocab.piece(id) {
            Some(piece) => chars_of(piece),
            None => {
                return Err(DecodeError::IdOutOfRange(id));
            },
        };
        // A token that is no byte terminates any pending byte run.
        let ghost start = out@;
        buf.flush(out);
        let ghost flushed_out = out@;
        let ghost shown = printed(piece@);
        let mut i: usize = 0;
        assert(flushed_out + shown.take(0) =~= flushed_out);
        while i < piece.len()
            invariant
                i <= piece@.len(),
                shown == printed(piece@),
                out@ == flushed_out + shown.take(i as int),
            decreases piece@.len() - i,
        {
            let c: char = piece[i];
            let p: char = if c == SPACE_MARK {
                ' '
            } else {
                c
            };
            out.push(p);
            assert((flushed_out + shown.take(i as int)).push(shown[i as int]) =~= flushed_out
                + shown.take(i + 1));
            i = i + 1;
        }
        assert(shown.take(i as int) =~= shown);
        assert(start + flushed(old(buf)@) + shown =~= start + (flushed(old(buf)@) + shown));
        Ok(())
    }

    /// Flushes an unterminated byte-token run (end of generation).
    pub fn flush_streaming(&self, buf: &mut DetokBuffer, out: &mut String)
        ensures
            final(out)@ == old(out)@ + flushed(old(buf)@),
            final(buf)@ == Seq::<u8>::empty(),
    {
        buf.flush(out);
    }
}

/// Decoding a run in two parts, with what the first withholds handed to the
/// second, prints the same as decoding it at once.
pub proof fn lemma_decode_in_parts(v: VocabView, pending: Seq<u8>, a: Seq<u32>, b: Seq<u32>)
    ensures
        ({
            let (first, held) = decode_run(v, pending, a);
            let (second, rest) = decode_run(v, held, b);
            decode_run(v, pending, a + b) == (first + second, rest)
        }),
    decreases b.len(),
{
    let (first, held) = decode_run(v, pending, a);
    if b.len() == 0 {
        assert(a + b =~= a);
        assert(first + Seq::<char>::empty() =~= first);
    } else {
        lemma_decode_in_parts(v, pending, a, b.drop_last());
        assert((a + b).drop_last() =~= a + b.drop_last());
        let (second, mid) = decode_run(v, held, b.drop_last());
        let more = decode_step(v, mid, b.last()).0;
        assert(first + second + more =~= first + (second + more));
    }
}

/// Of two texts that stand at one place, the one with more bytes has no fewer
/// characters.
proof fn lemma_longer_at(text: Seq<char>, at: int, p: Seq<char>, q: Seq<char>)
    requires
        stands_at(text, at, p),
        stands_at(text, at, q),
        byte_len(p) >= byte_len(q),
    ensures
        p.len() >= q.len(),
{
    if p.len() < q.len() {
        let rest = q.skip(p.len() as int);
        assert(p =~= q.take(p.len() as int)) by {
            assert forall|i: int| 0 <= i < p.len() implies p[i] == q[i] by {
                assert(p[i] == text.subrange(at, at + p.len())[i]);
                assert(q[i] == text.subrange(at, at + q.len())[i]);
            }
        }
        assert(q =~= p + rest);
        lemma_encode_concat(p, rest);
        lemma_byte_len_bound(rest);
    }
}

/// The special token matched is the longest that stands there, and no special
/// token stands further left.
pub proof fn lemma_leftmost_longest(v: VocabView, text: Seq<char>, at: int, other: int, j: int)
    requires
        v.wf(),
        leftmost_special(v, text, at),
        0 <= j < v.specials.len(),
        v.specials[j].0.len() > 0,
        stands_at(text, other, v.specials[j].0),
    ensures
        at <= other,
        other == at ==> v.specials[j].0.len() <= special_at(v, text, at).0.len(),
{
    assert(special_here(v, text, other, j));
    lemma_first_stands(v, text, other, j);
    assert(opens_special(v, text, other));
    let k = choose|k: int| special_stands(v, text, at, k);
    assert(opens_special(v, text, at));
    assert(special_stands(v, text, at, k));
    if other == at {
        if j < k {
            assert(!special_here(v, text, at, j));
        } else if k < j {
            assert(byte_len(v.specials[k].0) >= byte_len(v.specials[j].0));
            lemma_longer_at(text, at, v.specials[k].0, v.specials[j].0);
        }
    }
}

/// A special token is matched wherever one stands.
pub proof fn lemma_special_found(v: VocabView, text: Seq<char>, at: int, j: int)
    requires
        0 <= j < v.specials.len(),
        v.specials[j].0.len() > 0,
        stands_at(text, at, v.specials[j].0),
    ensures
        exists|first: int| first <= at && #[trigger] leftmost_special(v, text, first),
    decreases at,
{
    assert(special_here(v, text, at, j));
    lemma_first_stands(v, text, at, j);
    assert(opens_special(v, text, at));
    if exists|i: int| 0 <= i < at && #[trigger] opens_special(v, text, i) {
        let i = choose|i: int| 0 <= i < at && #[trigger] opens_special(v, text, i);
        let k = choose|k: int| special_stands(v, text, i, k);
        assert(special_here(v, text, i, k));
        lemma_special_found(v, text, i, k);
        let first = choose|first: int| first <= i && #[trigger] leftmost_special(v, text, first);
        assert(first <= at && leftmost_special(v, text, first));
    } else {
        assert(leftmost_special(v, text, at));
    }
}

/// Where some special stands, a first one does.
proof fn lemma_first_stands(v: VocabView, text: Seq<char>, at: int, j: int)
    requires
        special_here(v, text, at, j),
    ensures
        exists|k: int| #[trigger] special_stands(v, text, at, k) && k <= j,
    decreases j,
{
    if exists|i: int| 0 <= i < j && #[trigger] special_here(v, text, at, i) {
        let i = choose|i: int| 0 <= i < j && #[trigger] special_here(v, text, at, i);
        lemma_first_stands(v, text, at, i);
        let k = choose|k: int| #[trigger] special_stands(v, text, at, k) && k <= i;
        assert(special_stands(v, text, at, k) && k <= j);
    } else {
        assert(special_stands(v, text, at, j));
    }
}

/// A special token written out on its own is encoded as that token.
pub proof fn lemma_special_alone(v: VocabView, id: u32)
    requires
        v.wf(),
        (id as int) < v.pieces.len(),
        v.types[id as int].special(),
        v.pieces[id as int].len() > 0,
    ensures
        encoded(v, v.pieces[id as int], SpecialTokens::Match) == seq![id],
{
    let text = v.pieces[id as int];
    assert(v.specials.contains((text, id)));
    let j = choose|j: int| 0 <= j < v.specials.len() && v.specials[j] == (text, id);
    assert(text.subrange(0, text.len() as int) =~= text);
    assert(special_here(v, text, 0, j));
    lemma_first_stands(v, text, 0, j);
    assert(opens_special(v, text, 0));
    assert(leftmost_special(v, text, 0));
    let at = choose|at: int| leftmost_special(v, text, at);
    lemma_leftmost_unique(v, text, at, 0);
    let k = choose|k: int| #[trigger] special_stands(v, text, 0, k) && k <= j;
    lemma_special_unique(v, text, 0, k);
    if k < j {
        assert(byte_len(v.specials[k].0) >= byte_len(v.specials[j].0));
        lemma_longer_at(text, 0, v.specials[k].0, v.specials[j].0);
    }
    let other = v.specials[k].0;
    assert(other =~= text.subrange(0, other.len() as int));
    assert(other == text);
    assert(v.pieces[v.specials[k].1 as int] == v.pieces[id as int]);
    assert(v.specials[k].1 == id);
    assert(text.take(0) =~= Seq::empty());
    assert(text.skip(text.len() as int) =~= Seq::empty());
    lemma_nothing_to_encode(v);
    assert(Seq::<u32>::empty().push(id) + Seq::<u32>::empty() =~= seq![id]);
}

proof fn lemma_nothing_to_encode(v: VocabView)
    ensures
        segment_ids(v, Seq::empty()) == Seq::<u32>::empty(),
        matched_ids(v, Seq::empty()) == Seq::<u32>::empty(),
{
    let none = Seq::<u32>::empty();
    assert(symbols(v, Seq::empty()) == none);
    assert forall|i: int| !goes_first(v, none, i) by {
        assert(!mergeable(v, none, i));
    }
    assert forall|at: int| !leftmost_special(v, Seq::empty(), at) by {
        if opens_special(v, Seq::empty(), at) {
            let k = choose|k: int| special_stands(v, Seq::empty(), at, k);
            assert(special_here(v, Seq::empty(), at, k));
        }
    }
}

/// No merge takes or gives a byte token.
pub open spec fn merges_skip_bytes(v: VocabView) -> bool {
    forall|l: u32, r: u32| #[trigger]
        v.merges.contains_key((l, r)) ==> {
            &&& v.byte_of(l) is None
            &&& v.byte_of(r) is None
            &&& v.byte_of(v.merges[(l, r)].1) is None
        }
}

/// The text can be told from its encoding: it holds no space mark, and a
/// space in it has a token of its own.
pub open spec fn prints_back(v: VocabView, text: Seq<char>) -> bool {
    &&& !text.contains(SPACE_MARK)
    &&& text.contains(' ') ==> v.id_of(seq![SPACE_MARK]) is Some
}

/// Two tokens print what the token that spells both prints.
proof fn lemma_pair_prints(v: VocabView, held: Seq<u8>, l: u32, r: u32, m: u32)
    requires
        v.byte_of(l) is None,
        v.byte_of(r) is None,
        v.byte_of(m) is None,
        v.pieces[m as int] == v.pieces[l as int] + v.pieces[r as int],
    ensures
        decode_run(v, held, seq![l, r]) == decode_run(v, held, seq![m]),
{
    reveal_with_fuel(decode_run, 3);
    assert(seq![l, r].drop_last() =~= seq![l]);
    assert(seq![l].drop_last() =~= Seq::empty());
    assert(seq![m].drop_last() =~= Seq::empty());
    let pl = printed(v.pieces[l as int]);
    let pr = printed(v.pieces[r as int]);
    assert(printed(v.pieces[m as int]) =~= pl + pr);
    assert((Seq::<char>::empty() + (flushed(held) + pl)) + (flushed(Seq::empty()) + pr)
        =~= Seq::<char>::empty() + (flushed(held) + (pl + pr)));
}

/// Merging keeps what the tokens print.
proof fn lemma_merge_prints(v: VocabView, pending: Seq<u8>, ids: Seq<u32>, i: int)
    requires
        v.merges_spell(),
        merges_skip_bytes(v),
        mergeable(v, ids, i),
        ids_in_range(v, ids),
    ensures
        decode_run(v, pending, merged_at(v, ids, i)) == decode_run(v, pending, ids),
        ids_in_range(v, merged_at(v, ids, i)),
{
    let l = ids[i];
    let r = ids[i + 1];
    assert(v.merges.contains_key((l, r)));
    let m = v.merges[(l, r)].1;
    let head = ids.take(i);
    let tail = ids.skip(i + 2);
    let pair = seq![l, r];
    let next = merged_at(v, ids, i);
    assert(ids =~= head + (pair + tail));
    assert(next =~= head + (seq![m] + tail));
    let held = decode_run(v, pending, head).1;
    lemma_decode_in_parts(v, pending, head, pair + tail);
    lemma_decode_in_parts(v, pending, head, seq![m] + tail);
    lemma_decode_in_parts(v, held, pair, tail);
    lemma_decode_in_parts(v, held, seq![m], tail);
    lemma_pair_prints(v, held, l, r, m);
    assert forall|k: int| 0 <= k < next.len() implies (#[trigger] next[k] as int)
        < v.pieces.len() by {
        if k < i {
            assert(next[k] == ids[k]);
        } else if k > i {
            assert(next[k] == ids[k + 1]);
        }
    }
}

proof fn lemma_merge_all_prints(v: VocabView, pending: Seq<u8>, ids: Seq<u32>)
    requires
        v.merges_spell(),
        merges_skip_bytes(v),
        ids_in_range(v, ids),
    ensures
        decode_run(v, pending, merge_all(v, ids)) == decode_run(v, pending, ids),
        ids_in_range(v, merge_all(v, ids)),
    decreases ids.len(),
{
    if exists|i: int| goes_first(v, ids, i) {
        let i = choose|i: int| goes_first(v, ids, i);
        lemma_merge_prints(v, pending, ids, i);
        lemma_merge_all_prints(v, pending, merged_at(v, ids, i));
    }
}

/// The byte tokens of a run of bytes feed those bytes.
proof fn lemma_byte_ids_feed(v: VocabView, pending: Seq<u8>, bytes: Seq<u8>)
    requires
        v.wf(),
    ensures
        decode_run(v, pending, byte_ids(v, bytes)) == fed(pending, bytes),
        ids_in_range(v, byte_ids(v, bytes)),
    decreases bytes.len(),
{
    let ids = byte_ids(v, bytes);
    assert forall|k: int| 0 <= k < ids.len() implies (#[trigger] ids[k] as int)
        < v.pieces.len() by {
        assert((v.bytes[bytes[k] as int] as int) < v.pieces.len());
    }
    if bytes.len() > 0 {
        let b = bytes[0];
        let rest = bytes.drop_first();
        let one = seq![v.bytes[b as int]];
        assert(ids =~= one + byte_ids(v, rest));
        assert((v.bytes[b as int] as int) < v.pieces.len());
        lemma_decode_in_parts(v, pending, one, byte_ids(v, rest));
        reveal_with_fuel(decode_run, 2);
        assert(one.drop_last() =~= Seq::empty());
        assert(Seq::<char>::empty() + feed(pending, b).0 =~= feed(pending, b).0);
        lemma_byte_ids_feed(v, feed(pending, b).1, rest);
    }
}

/// A piece of one character is no byte token.
proof fn lemma_char_is_no_byte(v: VocabView, c: char, id: u32)
    requires
        v.wf(),
        v.id_of(seq![c]) == Some(id),
    ensures
        v.byte_of(id) is None,
        v.pieces[id as int] == seq![c],
        (id as int) < v.pieces.len(),
{
    lemma_id_names_piece(v, seq![c], id);
    assert(v.pieces[id as int] == seq![c]);
}

/// The tokens a text starts as print that text.
proof fn lemma_symbols_print(v: VocabView, text: Seq<char>)
    requires
        v.wf(),
        prints_back(v, text),
    ensures
        decode_run(v, Seq::empty(), symbols(v, text)) == (text, Seq::<u8>::empty()),
        ids_in_range(v, symbols(v, text)),
    decreases text.len(),
{
    if text.len() == 0 {
    } else {
        let head = text.drop_last();
        let c = text.last();
        assert forall|x: char| head.contains(x) implies text.contains(x) by {
            let i = choose|i: int| 0 <= i < head.len() && head[i] == x;
            assert(text[i] == x);
        }
        assert(text.contains(c));
        lemma_symbols_print(v, head);
        let ids = char_ids(v, c);
        lemma_decode_in_parts(v, Seq::empty(), symbols(v, head), ids);
        match v.id_of(seq![marked(c)]) {
            Some(id) => {
                lemma_char_is_no_byte(v, marked(c), id);
                reveal_with_fuel(decode_run, 2);
                assert(seq![id].drop_last() =~= Seq::empty());
                assert(printed(seq![marked(c)]) =~= seq![c]);
                assert(Seq::<char>::empty() + (flushed(Seq::empty()) + seq![c]) =~= seq![c]);
            },
            None => {
                let bytes = encode_utf8(seq![c]);
                lemma_byte_ids_feed(v, Seq::empty(), bytes);
                lemma_feed_text(seq![c], Seq::empty());
                assert(bytes + Seq::<u8>::empty() =~= bytes);
                assert(seq![c] + Seq::<char>::empty() =~= seq![c]);
            },
        }
        assert(head + seq![c] =~= text);
        assert(ids_in_range(v, symbols(v, text)));
    }
}

/// A segment decodes to its text, and withholds nothing.
proof fn lemma_segment_prints(v: VocabView, text: Seq<char>)
    requires
        v.wf(),
        merges_skip_bytes(v),
        prints_back(v, text),
    ensures
        decode_run(v, Seq::empty(), segment_ids(v, text)) == (text, Seq::<u8>::empty()),
        ids_in_range(v, segment_ids(v, text)),
{
    lemma_symbols_print(v, text);
    lemma_merge_all_prints(v, Seq::empty(), symbols(v, text));
}

/// A special token prints its piece, where that holds no space mark.
proof fn lemma_special_prints(v: VocabView, k: int)
    requires
        v.specials_complete(),
        0 <= k < v.specials.len(),
        !v.specials[k].0.contains(SPACE_MARK),
    ensures
        decode_run(v, Seq::empty(), seq![v.specials[k].1]) == (
            v.specials[k].0,
            Seq::<u8>::empty(),
        ),
        (v.specials[k].1 as int) < v.pieces.len(),
{
    let (piece, id) = v.specials[k];
    reveal_with_fuel(decode_run, 2);
    assert(seq![id].drop_last() =~= Seq::empty());
    assert(v.byte_of(id) is None);
    assert forall|i: int| 0 <= i < piece.len() implies piece[i] != SPACE_MARK by {
        assert(piece.contains(piece[i]));
    }
    assert(printed(piece) =~= piece);
    assert(Seq::<char>::empty() + (flushed(Seq::empty()) + piece) =~= piece);
}

/// A part of a text prints back where the text does.
proof fn lemma_part_prints_back(v: VocabView, text: Seq<char>, from: int, to: int)
    requires
        prints_back(v, text),
        0 <= from <= to <= text.len(),
    ensures
        prints_back(v, text.subrange(from, to)),
{
    let part = text.subrange(from, to);
    assert forall|x: char| part.contains(x) implies text.contains(x) by {
        let i = choose|i: int| 0 <= i < part.len() && part[i] == x;
        assert(text[from + i] == x);
    }
}

proof fn lemma_matched_prints(v: VocabView, text: Seq<char>)
    requires
        v.wf(),
        merges_skip_bytes(v),
        prints_back(v, text),
    ensures
        decode_run(v, Seq::empty(), matched_ids(v, text)) == (text, Seq::<u8>::empty()),
        ids_in_range(v, matched_ids(v, text)),
    decreases text.len(),
{
    if exists|at: int| leftmost_special(v, text, at) {
        let at = choose|at: int| leftmost_special(v, text, at);
        let (piece, id) = special_at(v, text, at);
        assert(opens_special(v, text, at));
        let k = choose|k: int| special_stands(v, text, at, k);
        assert(special_here(v, text, at, k));
        let end = at + piece.len();
        let head = text.take(at);
        let tail = text.skip(end);
        lemma_part_prints_back(v, text, 0, at);
        lemma_part_prints_back(v, text, at, end);
        lemma_part_prints_back(v, text, end, text.len() as int);
        assert(text.subrange(end, text.len() as int) =~= tail);
        assert(text.subrange(0, at) =~= head);
        lemma_segment_prints(v, head);
        lemma_matched_prints(v, tail);
        lemma_special_prints(v, k);
        lemma_join_prints(v, segment_ids(v, head), id, matched_ids(v, tail), head, piece, tail);
        assert(head + (piece + tail) =~= text);
    } else {
        lemma_segment_prints(v, text);
    }
}

proof fn lemma_join_prints(
    v: VocabView,
    head_ids: Seq<u32>,
    id: u32,
    tail_ids: Seq<u32>,
    head: Seq<char>,
    piece: Seq<char>,
    tail: Seq<char>,
)
    requires
        decode_run(v, Seq::empty(), head_ids) == (head, Seq::<u8>::empty()),
        decode_run(v, Seq::empty(), seq![id]) == (piece, Seq::<u8>::empty()),
        decode_run(v, Seq::empty(), tail_ids) == (tail, Seq::<u8>::empty()),
        ids_in_range(v, head_ids),
        (id as int) < v.pieces.len(),
        ids_in_range(v, tail_ids),
    ensures
        decode_run(v, Seq::empty(), head_ids.push(id) + tail_ids) == (
            head + (piece + tail),
            Seq::<u8>::empty(),
        ),
        ids_in_range(v, head_ids.push(id) + tail_ids),
{
    assert(head_ids.push(id) + tail_ids =~= head_ids + (seq![id] + tail_ids));
    lemma_decode_in_parts(v, Seq::empty(), head_ids, seq![id] + tail_ids);
    lemma_decode_in_parts(v, Seq::empty(), seq![id], tail_ids);
}

/// Decoding gives back what was encoded, with special tokens matched or not.
///
/// The text holds no `▁`, which decodes to a space; a space in the text has
/// its own piece `▁`; and no merge touches a byte token.
pub proof fn lemma_decode_encode(v: VocabView, text: Seq<char>, specials: SpecialTokens)
    requires
        v.wf(),
        merges_skip_bytes(v),
        prints_back(v, text),
    ensures
        ids_in_range(v, encoded(v, text, specials)),
        decoded(v, encoded(v, text, specials)) == text,
{
    match specials {
        SpecialTokens::Plain => {
            lemma_segment_prints(v, text);
        },
        SpecialTokens::Match => {
            lemma_matched_prints(v, text);
        },
    }
    assert(text + Seq::<char>::empty() =~= text);
}

/// No token of `ids` is a control or user-defined token.
pub open spec fn no_specials(v: VocabView, ids: Seq<u32>) -> bool {
    forall|k: int|
        0 <= k < ids.len() ==> {
            &&& (#[trigger] ids[k] as int) < v.types.len()
            &&& !v.types[ids[k] as int].special()
        }
}

proof fn lemma_merges_stay_plain(v: VocabView, ids: Seq<u32>)
    requires
        v.wf(),
        no_specials(v, ids),
        forall|l: u32, r: u32| #[trigger]
            v.merges.contains_key((l, r)) ==> !v.types[v.merges[(l, r)].1 as int].special(),
    ensures
        no_specials(v, merge_all(v, ids)),
    decreases ids.len(),
{
    if exists|i: int| goes_first(v, ids, i) {
        let i = choose|i: int| goes_first(v, ids, i);
        let next = merged_at(v, ids, i);
        assert(v.merges.contains_key((ids[i], ids[i + 1])));
        assert forall|k: int| 0 <= k < next.len() implies {
            &&& (#[trigger] next[k] as int) < v.types.len()
            &&& !v.types[next[k] as int].special()
        } by {
            if k < i {
                assert(next[k] == ids[k]);
            } else if k > i {
                assert(next[k] == ids[k + 1]);
            }
        }
        lemma_merges_stay_plain(v, next);
    }
}

/// Plain text never becomes a control or user-defined token, where no merge
/// yields one and none is a single character of the text.
pub proof fn lemma_plain_stays_plain(v: VocabView, text: Seq<char>)
    requires
        v.wf(),
        forall|l: u32, r: u32| #[trigger]
            v.merges.contains_key((l, r)) ==> !v.types[v.merges[(l, r)].1 as int].special(),
        forall|i: int, id: u32|
            #![trigger text[i], v.types[id as int]]
            0 <= i < text.len() && v.id_of(seq![marked(text[i])]) == Some(id)
                ==> !v.types[id as int].special(),
    ensures
        no_specials(v, encoded(v, text, SpecialTokens::Plain)),
{
    lemma_symbols_plain(v, text);
    lemma_merges_stay_plain(v, symbols(v, text));
}

proof fn lemma_symbols_plain(v: VocabView, text: Seq<char>)
    requires
        v.wf(),
        forall|i: int, id: u32|
            #![trigger text[i], v.types[id as int]]
            0 <= i < text.len() && v.id_of(seq![marked(text[i])]) == Some(id)
                ==> !v.types[id as int].special(),
    ensures
        no_specials(v, symbols(v, text)),
    decreases text.len(),
{
    if text.len() > 0 {
        let head = text.drop_last();
        let c = text.last();
        assert forall|i: int, id: u32|
            #![trigger head[i], v.types[id as int]]
            0 <= i < head.len() && v.id_of(seq![marked(head[i])]) == Some(id) implies !v.types[id as int].special() by {
            assert(text[i] == head[i]);
        }
        lemma_symbols_plain(v, head);
        let ids = char_ids(v, c);
        assert(no_specials(v, ids)) by {
            match v.id_of(seq![marked(c)]) {
                Some(id) => {
                    assert(text[text.len() - 1] == c);
                    assert(!v.types[id as int].special());
                    lemma_id_names_piece(v, seq![marked(c)], id);
                },
                None => {
                    let bytes = encode_utf8(seq![marked(c)]);
                    assert forall|k: int| 0 <= k < ids.len() implies {
                        &&& (#[trigger] ids[k] as int) < v.types.len()
                        &&& !v.types[ids[k] as int].special()
                    } by {
                        assert((v.bytes[bytes[k] as int] as int) < v.pieces.len());
                        assert(v.byte_of(v.bytes[bytes[k] as int]) == Some(bytes[k]));
                    }
                },
            }
        }
    }
}

/// The piece of control or user-defined token `id` stands in `text` at `at`.
pub open spec fn control_stands(v: VocabView, text: Seq<char>, at: int, id: int) -> bool {
    &&& 0 <= id < v.pieces.len()
    &&& v.types[id] == TokenType::Control || v.types[id] == TokenType::UserDefined
    &&& v.pieces[id].len() > 0
    &&& stands_at(text, at, v.pieces[id])
}

proof fn lemma_control_listed(v: VocabView, text: Seq<char>, at: int, id: int) -> (k: int)
    requires
        v.wf(),
        control_stands(v, text, at, id),
    ensures
        special_here(v, text, at, k),
        v.specials[k] == (v.pieces[id], id as u32),
{
    assert(v.types[id].special());
    assert(v.specials.contains((v.pieces[id], id as u32)));
    let k = choose|k: int| 0 <= k < v.specials.len() && v.specials[k] == (v.pieces[id], id as u32);
    assert(special_here(v, text, at, k));
    k
}

proof fn lemma_listed_control(v: VocabView, text: Seq<char>, at: int, k: int)
    requires
        v.wf(),
        special_here(v, text, at, k),
    ensures
        control_stands(v, text, at, v.specials[k].1 as int),
        v.specials[k].0 == v.pieces[v.specials[k].1 as int],
{
    let id = v.specials[k].1;
    assert((id as int) < v.pieces.len() && v.types[id as int].special());
}

/// With special tokens matched, a text is cut at the first place where one
/// stands, by the longest that stands there: what is before it is encoded as
/// plain text, then comes the token, and what is behind it is encoded in the
/// same way.
pub proof fn lemma_match_cuts(v: VocabView, text: Seq<char>, at: int, id: int)
    requires
        v.wf(),
        control_stands(v, text, at, id),
        forall|other: int, j: int| #[trigger]
            control_stands(v, text, other, j) ==> at < other || (at == other && v.pieces[j].len()
                <= v.pieces[id].len()),
    ensures
        encoded(v, text, SpecialTokens::Match) == encoded(v, text.take(at), SpecialTokens::Plain)
            + seq![id as u32] + encoded(
            v,
            text.skip(at + v.pieces[id].len()),
            SpecialTokens::Match,
        ),
{
    let k0 = lemma_control_listed(v, text, at, id);
    lemma_first_stands(v, text, at, k0);
    let k = choose|k: int| #[trigger] special_stands(v, text, at, k) && k <= k0;
    assert(special_here(v, text, at, k));
    lemma_listed_control(v, text, at, k);
    let found = v.specials[k].1;
    if k < k0 {
        assert(byte_len(v.specials[k].0) >= byte_len(v.specials[k0].0));
        lemma_longer_at(text, at, v.specials[k].0, v.specials[k0].0);
    }
    assert(v.pieces[found as int] =~= v.pieces[id]);
    assert(found == id);
    lemma_special_unique(v, text, at, k);
    assert(opens_special(v, text, at));
    assert forall|j: int| 0 <= j < at implies !#[trigger] opens_special(v, text, j) by {
        if opens_special(v, text, j) {
            let m = choose|m: int| special_stands(v, text, j, m);
            assert(special_here(v, text, j, m));
            lemma_listed_control(v, text, j, m);
        }
    }
    assert(leftmost_special(v, text, at));
    let first = choose|first: int| leftmost_special(v, text, first);
    lemma_leftmost_unique(v, text, first, at);
    let head = segment_ids(v, text.take(at));
    assert(head.push(id as u32) =~= head + seq![id as u32]);
}

/// A text in which no special token stands is encoded as plain text.
pub proof fn lemma_match_of_plain(v: VocabView, text: Seq<char>)
    requires
        v.wf(),
        forall|at: int, id: int| !#[trigger] control_stands(v, text, at, id),
    ensures
        encoded(v, text, SpecialTokens::Match) == encoded(v, text, SpecialTokens::Plain),
{
    assert forall|at: int| !leftmost_special(v, text, at) by {
        if opens_special(v, text, at) {
            let k = choose|k: int| special_stands(v, text, at, k);
            assert(special_here(v, text, at, k));
            lemma_listed_control(v, text, at, k);
        }
    }
}

/// Plain text of any length is merged as far as it goes: no two neighbours of
/// its encoding have a merge, and a run of merge steps, the lowest rank first
/// and the leftmost of a rank, leads to it from the tokens of its characters.
pub proof fn lemma_plain_merged(v: VocabView, text: Seq<char>)
    ensures
        ({
            let ids = encoded(v, text, SpecialTokens::Plain);
            &&& forall|i: int|
                0 <= i < ids.len() - 1 ==> !v.merges.contains_key((#[trigger] ids[i], ids[i + 1]))
            &&& exists|rows: Seq<Seq<u32>>| #[trigger]
                merge_run(v, rows) && rows[0] == symbols(v, text) && rows.last() == ids
        }),
{
    lemma_fully_merged(v, text);
}

/// A token that is no byte prints its piece, a space for every space mark, and
/// parts what is before it from what is behind.
pub proof fn lemma_decode_piece(v: VocabView, a: Seq<u32>, id: u32, b: Seq<u32>)
    requires
        (id as int) < v.pieces.len() == v.types.len(),
        v.types[id as int] != TokenType::Byte,
    ensures
        ({
            let piece = v.pieces[id as int];
            let shown = Seq::new(
                piece.len(),
                |i: int|
                    if piece[i] == '\u{2581}' {
                        ' '
                    } else {
                        piece[i]
                    },
            );
            decoded(v, a + seq![id] + b) == decoded(v, a) + shown + decoded(v, b)
        }),
{
    let piece = v.pieces[id as int];
    let shown = Seq::new(
        piece.len(),
        |i: int|
            if piece[i] == '\u{2581}' {
                ' '
            } else {
                piece[i]
            },
    );
    assert(printed(piece) =~= shown);
    let (text, held) = decode_run(v, Seq::empty(), a);
    let one = seq![id];
    assert(a + one + b =~= a + (one + b));
    lemma_decode_in_parts(v, Seq::empty(), a, one + b);
    lemma_decode_in_parts(v, held, one, b);
    reveal_with_fuel(decode_run, 2);
    assert(one.drop_last() =~= Seq::empty());
    assert(decode_run(v, held, one) == (Seq::<char>::empty() + (flushed(held) + shown), Seq::<
        u8,
    >::empty()));
    let (more, rest) = decode_run(v, Seq::empty(), b);
    assert(text + ((Seq::<char>::empty() + (flushed(held) + shown)) + more) + flushed(rest) =~= (text
        + flushed(held)) + shown + (more + flushed(rest)));
}

/// A run of byte tokens prints the lossy decoding of its bytes.
pub proof fn lemma_decode_bytes(v: VocabView, ids: Seq<u32>, bytes: Seq<u8>)
    requires
        v.wf(),
        ids.len() == bytes.len(),
        forall|k: int| 0 <= k < ids.len() ==> v.byte_of(#[trigger] ids[k]) == Some(bytes[k]),
    ensures
        decoded(v, ids) == lossy(bytes),
{
    assert forall|k: int| 0 <= k < ids.len() implies ids[k] == #[trigger] byte_ids(v, bytes)[k] by {
        lemma_byte_tokens(v, bytes[k], ids[k]);
    }
    assert(ids =~= byte_ids(v, bytes));
    lemma_byte_ids_feed(v, Seq::empty(), bytes);
    lemma_feed_is_lossy(bytes);
}

/// Of ids that name no token the first one is reported, whatever follows it.
pub proof fn lemma_first_bad_id(v: VocabView, a: Seq<u32>, id: u32, b: Seq<u32>, other: u32)
    requires
        forall|k: int| 0 <= k < a.len() ==> (#[trigger] a[k] as int) < v.pieces.len(),
        v.pieces.len() <= id,
    ensures
        ids_in_range(v, a),
        !ids_in_range(v, a.push(id) + b),
        first_out_of_range(v, a.push(id) + b, id),
        first_out_of_range(v, a.push(id) + b, other) ==> other == id,
        !first_out_of_range(v, a, other),
{
    let all = a.push(id) + b;
    let n = a.len() as int;
    assert(all[n] == id);
    assert(all.take(n) =~= a);
    if first_out_of_range(v, all, other) {
        let k = choose|k: int|
            {
                &&& 0 <= k < all.len()
                &&& #[trigger] all[k] == other
                &&& other as int >= v.pieces.len()
                &&& ids_in_range(v, all.take(k))
            };
        if k > n {
            assert(all.take(k)[n] == id);
        } else if k < n {
            assert(all[k] == a[k]);
        }
    }
}

} // verus!
