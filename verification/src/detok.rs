//! UTF-8-safe accumulation of `<0xXX>` byte-token runs for streaming decode.

use vstd::prelude::*;
use vstd::string::*;
use vstd::utf8::*;

use crate::text::lemma_encode_concat;

verus! {

#[verifier::external_type_specification]
#[verifier::external_body]
pub struct ExUtf8Error(core::str::Utf8Error);

/// `core::str::from_utf8`: succeeds exactly on valid UTF-8, and the string it
/// gives is the one that the bytes encode.
pub assume_specification[ core::str::from_utf8 ](v: &[u8]) -> (r: Result<
    &str,
    core::str::Utf8Error,
>)
    ensures
        r is Ok <==> valid_utf8(v@),
        r matches Ok(s) ==> s@ == decode_utf8(v@),
;

/// What stands for bytes that are not UTF-8.
pub const REPLACEMENT: char = '\u{FFFD}';

/// `bytes` is the start of the encoding of `c`, and not all of it.
pub open spec fn begins(bytes: Seq<u8>, c: char) -> bool {
    let all = encode_utf8(seq![c]);
    0 < bytes.len() < all.len() && bytes == all.take(bytes.len() as int)
}

/// A code point that more bytes can complete.
pub open spec fn incomplete(bytes: Seq<u8>) -> bool {
    exists|c: char| #[trigger] begins(bytes, c)
}

/// One more byte after `pending`: the characters it completes, and the bytes
/// withheld after it. A byte that cannot follow `pending` turns `pending`
/// into one replacement character and starts afresh.
pub open spec fn feed(pending: Seq<u8>, b: u8) -> (Seq<char>, Seq<u8>)
    decreases pending.len(),
{
    let run = pending.push(b);
    if valid_utf8(run) {
        (decode_utf8(run), Seq::empty())
    } else if incomplete(run) {
        (Seq::empty(), run)
    } else if pending.len() == 0 {
        (seq![REPLACEMENT], Seq::empty())
    } else {
        let (chars, rest) = feed(Seq::empty(), b);
        (seq![REPLACEMENT] + chars, rest)
    }
}

/// Feeding a run of bytes: everything emitted, and what is withheld at the
/// end.
pub open spec fn fed(pending: Seq<u8>, bytes: Seq<u8>) -> (Seq<char>, Seq<u8>)
    decreases bytes.len(),
{
    if bytes.len() == 0 {
        (Seq::empty(), pending)
    } else {
        let (first, held) = feed(pending, bytes[0]);
        let (more, rest) = fed(held, bytes.drop_first());
        (first + more, rest)
    }
}

/// What is emitted for a withheld code point that is never completed.
pub open spec fn flushed(pending: Seq<u8>) -> Seq<char> {
    if pending.len() > 0 {
        seq![REPLACEMENT]
    } else {
        Seq::empty()
    }
}

/// Second bytes that may follow the leading byte `b0`.
spec fn second_ok(b0: u8, b1: u8) -> bool {
    &&& 0x80 <= b1 <= 0xbf
    &&& b0 == 0xe0 ==> b1 >= 0xa0
    &&& b0 == 0xed ==> b1 <= 0x9f
    &&& b0 == 0xf0 ==> b1 >= 0x90
    &&& b0 == 0xf4 ==> b1 <= 0x8f
}

/// [`incomplete`] by byte ranges.
spec fn prefix_form(s: Seq<u8>) -> bool {
    ||| s.len() == 1 && 0xc2 <= s[0] <= 0xf4
    ||| s.len() == 2 && 0xe0 <= s[0] <= 0xf4 && second_ok(s[0], s[1])
    ||| s.len() == 3 && 0xf0 <= s[0] <= 0xf4 && second_ok(s[0], s[1]) && 0x80 <= s[2] <= 0xbf
}

proof fn lemma_width_2(b0: u8, b1: u8)
    requires
        is_leading_byte_width_2(b0),
        is_continuation_byte(b1),
    ensures
        0x80 <= codepoint_width_2(b0, b1) <= 0x7ff <==> b0 >= 0xc2,
        codepoint_width_2(b0, b1) <= 0x7ff,
{
    assert({
        let cp: u32 = (((b0 & 0x1f) as u32) << 6) | ((b1 & 0x3f) as u32);
        (0x80 <= cp <==> b0 >= 0xc2) && cp <= 0x7ff
    }) by (bit_vector)
        requires
            0xc0 <= b0 <= 0xdf,
            0x80 <= b1 <= 0xbf,
    ;
}

proof fn lemma_width_3(b0: u8, b1: u8, b2: u8)
    requires
        is_leading_byte_width_3(b0),
        is_continuation_byte(b1),
        is_continuation_byte(b2),
    ensures
        0x800 <= codepoint_width_3(b0, b1, b2) && not_surrogate(codepoint_width_3(b0, b1, b2))
            <==> second_ok(b0, b1),
{
    assert({
        let cp: u32 = (((b0 & 0x0f) as u32) << 12) | (((b1 & 0x3f) as u32) << 6) | ((b2
            & 0x3f) as u32);
        (0x800 <= cp && !(0xd800 <= cp && cp <= 0xdfff)) == ((b0 != 0xe0 || b1 >= 0xa0) && (b0
            != 0xed || b1 <= 0x9f))
    }) by (bit_vector)
        requires
            0xe0 <= b0 <= 0xef,
            0x80 <= b1 <= 0xbf,
            0x80 <= b2 <= 0xbf,
    ;
}

proof fn lemma_width_4(b0: u8, b1: u8, b2: u8, b3: u8)
    requires
        is_leading_byte_width_4(b0),
        is_continuation_byte(b1),
        is_continuation_byte(b2),
        is_continuation_byte(b3),
    ensures
        0x10000 <= codepoint_width_4(b0, b1, b2, b3) <= 0x10ffff <==> b0 <= 0xf4 && second_ok(
            b0,
            b1,
        ),
{
    assert({
        let cp: u32 = (((b0 & 0x07) as u32) << 18) | (((b1 & 0x3f) as u32) << 12) | (((b2
            & 0x3f) as u32) << 6) | ((b3 & 0x3f) as u32);
        (0x10000 <= cp && cp <= 0x10ffff) == (b0 <= 0xf4 && (b0 != 0xf0 || b1 >= 0x90) && (b0
            != 0xf4 || b1 <= 0x8f))
    }) by (bit_vector)
        requires
            0xf0 <= b0 <= 0xf7,
            0x80 <= b1 <= 0xbf,
            0x80 <= b2 <= 0xbf,
            0x80 <= b3 <= 0xbf,
    ;
}

/// The byte ranges describe exactly the starts of encodings.
proof fn lemma_prefix_form(s: Seq<u8>)
    ensures
        incomplete(s) <==> prefix_form(s),
{
    if incomplete(s) {
        let c = choose|c: char| begins(s, c);
        let all = encode_utf8(seq![c]);
        encode_utf8_first_scalar(seq![c]);
        assert(all == encode_scalar(c as u32)) by {
            assert(seq![c].drop_first() =~= Seq::empty());
            assert(all =~= encode_scalar(c as u32) + encode_utf8(Seq::empty()));
        }
        assert(s[0] == all[0]);
        if s.len() >= 2 {
            assert(s[1] == all[1]);
        }
        if s.len() >= 3 {
            assert(s[2] == all[2]);
        }
        if is_leading_byte_width_2(all[0]) {
            lemma_width_2(all[0], all[1]);
        } else if is_leading_byte_width_3(all[0]) {
            lemma_width_3(all[0], all[1], all[2]);
        } else if is_leading_byte_width_4(all[0]) {
            lemma_width_4(all[0], all[1], all[2], all[3]);
        }
    }
    if prefix_form(s) {
        let b1: u8 = if s.len() >= 2 {
            s[1]
        } else if s[0] == 0xe0 {
            0xa0
        } else if s[0] == 0xf0 {
            0x90
        } else {
            0x80
        };
        let b2: u8 = if s.len() >= 3 {
            s[2]
        } else {
            0x80
        };
        let all = if s[0] <= 0xdf {
            seq![s[0], b1]
        } else if s[0] <= 0xef {
            seq![s[0], b1, b2]
        } else {
            seq![s[0], b1, b2, 0x80u8]
        };
        if s[0] <= 0xdf {
            lemma_width_2(s[0], b1);
        } else if s[0] <= 0xef {
            lemma_width_3(s[0], b1, b2);
        } else {
            lemma_width_4(s[0], b1, b2, 0x80u8);
        }
        assert(s[0] <= 0xdf ==> not_surrogate(decode_first_codepoint(all)));
        assert(valid_first_scalar(all));
        assert(pop_first_scalar(all) =~= Seq::empty());
        reveal_with_fuel(valid_utf8, 2);
        reveal_with_fuel(decode_utf8, 2);
        assert(valid_utf8(all));
        decode_utf8_encode_utf8(all);
        let c = decode_first_scalar(all) as char;
        assert(decode_utf8(all) =~= seq![c]);
        assert(s =~= all.take(s.len() as int));
        assert(begins(s, c));
    }
}

/// Whether `bytes` is the start of a code point that more bytes can complete.
fn is_incomplete(bytes: &Vec<u8>) -> (r: bool)
    ensures
        r == incomplete(bytes@),
{
    proof {
        lemma_prefix_form(bytes@);
    }
    let n: usize = bytes.len();
    if n == 0 || n > 3 {
        return false;
    }
    let b0: u8 = bytes[0];
    if n == 1 {
        return 0xc2 <= b0 && b0 <= 0xf4;
    }
    let b1: u8 = bytes[1];
    let second: bool = 0x80 <= b1 && b1 <= 0xbf && (b0 != 0xe0 || b1 >= 0xa0) && (b0 != 0xed || b1
        <= 0x9f) && (b0 != 0xf0 || b1 >= 0x90) && (b0 != 0xf4 || b1 <= 0x8f);
    if n == 2 {
        return 0xe0 <= b0 && b0 <= 0xf4 && second;
    }
    let b2: u8 = bytes[2];
    0xf0 <= b0 && b0 <= 0xf4 && second && 0x80 <= b2 && b2 <= 0xbf
}

/// Holds bytes from byte-fallback tokens until they form complete UTF-8.
///
/// Multi-byte code points (emoji, CJK in byte fallback) span several tokens;
/// streamed deltas must withhold the partial prefix instead of emitting
/// broken UTF-8. Invalid sequences degrade to U+FFFD, one for each maximal
/// start of a code point.
#[derive(Debug)]
pub struct DetokBuffer {
    pending: Vec<u8>,
}

impl View for DetokBuffer {
    type V = Seq<u8>;

    /// The bytes withheld.
    closed spec fn view(&self) -> Seq<u8> {
        self.pending@
    }
}

impl Default for DetokBuffer {
    fn default() -> (buf: Self)
        ensures
            buf@ == Seq::<u8>::empty(),
    {
        DetokBuffer { pending: Vec::new() }
    }
}

impl DetokBuffer {
    /// What is withheld can still be completed.
    #[verifier::type_invariant]
    closed spec fn inv(self) -> bool {
        self.pending@.len() == 0 || incomplete(self.pending@)
    }

    pub fn new() -> (buf: Self)
        ensures
            buf@ == Seq::<u8>::empty(),
    {
        DetokBuffer { pending: Vec::new() }
    }

    /// True if a partial code point is being withheld.
    pub fn has_pending(&self) -> (r: bool)
        ensures
            r == (self@.len() > 0),
            r == incomplete(self@),
    {
        proof {
            use_type_invariant(self);
        }
        self.pending.len() > 0
    }

    /// Adds one byte; moves every *complete* code point (or replacement
    /// character for invalid bytes) to `out`, keeping only what can still be
    /// completed.
    pub fn push_byte(&mut self, b: u8, out: &mut String)
        ensures
            final(out)@ == old(out)@ + feed(old(self)@, b).0,
            final(self)@ == feed(old(self)@, b).1,
    {
        let ghost start = out@;
        let ghost before = self.pending@;
        let mut run: Vec<u8> = Vec::new();
        std::mem::swap(&mut self.pending, &mut run);
        run.push(b);
        proof {
            lemma_prefix_form(run@);
            lemma_prefix_form(seq![b]);
            assert(Seq::<u8>::empty().push(b) =~= seq![b]);
        }
        if let Ok(s) = core::str::from_utf8(run.as_slice()) {
            out.append(s);
            return;
        }
        if is_incomplete(&run) {
            assert(start + Seq::<char>::empty() =~= start);
            self.pending = run;
            return;
        }
        out.push(REPLACEMENT);
        if run.len() == 1 {
            assert(start.push(REPLACEMENT) =~= start + seq![REPLACEMENT]);
            return;
        }
        // What was withheld cannot be completed by `b`: scan `b` afresh.
        let mut alone: Vec<u8> = Vec::new();
        alone.push(b);
        assert(alone@ =~= seq![b]);
        let ghost (chars, rest) = feed(Seq::empty(), b);
        assert(start.push(REPLACEMENT) + chars =~= start + (seq![REPLACEMENT] + chars));
        if let Ok(s) = core::str::from_utf8(alone.as_slice()) {
            out.append(s);
        } else if is_incomplete(&alone) {
            assert(start.push(REPLACEMENT) =~= start.push(REPLACEMENT) + chars);
            self.pending = alone;
        } else {
            assert(start.push(REPLACEMENT).push(REPLACEMENT) =~= start.push(REPLACEMENT) + chars);
            out.push(REPLACEMENT);
        }
    }

    /// Emits any withheld partial code point as U+FFFD (the run ended without
    /// completing it).
    pub fn flush(&mut self, out: &mut String)
        ensures
            final(out)@ == old(out)@ + flushed(old(self)@),
            final(self)@ == Seq::<u8>::empty(),
    {
        let ghost start = out@;
        if self.pending.len() > 0 {
            out.push(REPLACEMENT);
            assert(start.push(REPLACEMENT) =~= start + seq![REPLACEMENT]);
            self.pending = Vec::new();
        } else {
            assert(start + Seq::<char>::empty() =~= start);
            assert(self.pending@ =~= Seq::<u8>::empty());
        }
    }
}

/// An encoded character on its own.
pub proof fn lemma_one_char(c: char)
    ensures
        encode_utf8(seq![c]) == encode_scalar(c as u32),
        encode_utf8(seq![c]).len() > 0,
{
    assert(seq![c].drop_first() =~= Seq::empty());
    assert(encode_utf8(seq![c]) =~= encode_scalar(c as u32) + encode_utf8(Seq::empty()));
}

/// No proper start of a character is valid on its own.
proof fn lemma_prefix_not_valid(bytes: Seq<u8>, c: char)
    requires
        begins(bytes, c),
    ensures
        !valid_utf8(bytes),
{
    let all = encode_utf8(seq![c]);
    lemma_one_char(c);
    encode_utf8_first_scalar(seq![c]);
    assert(bytes[0] == all[0]);
}

proof fn lemma_fed_char(c: char, k: int, rest: Seq<u8>)
    requires
        0 <= k < encode_utf8(seq![c]).len(),
    ensures
        ({
            let all = encode_utf8(seq![c]);
            let (more, held) = fed(Seq::empty(), rest);
            fed(all.take(k), all.skip(k) + rest) == (seq![c] + more, held)
        }),
    decreases encode_utf8(seq![c]).len() - k,
{
    let all = encode_utf8(seq![c]);
    let bytes = all.skip(k) + rest;
    let (more, held) = fed(Seq::empty(), rest);
    assert(bytes[0] == all[k]);
    assert(all.take(k).push(all[k]) =~= all.take(k + 1));
    if k + 1 == all.len() {
        assert(all.take(k + 1) =~= all);
        encode_utf8_valid_utf8(seq![c]);
        encode_utf8_decode_utf8(seq![c]);
        assert(bytes.drop_first() =~= rest);
    } else {
        assert(begins(all.take(k + 1), c));
        lemma_prefix_not_valid(all.take(k + 1), c);
        assert(bytes.drop_first() =~= all.skip(k + 1) + rest);
        lemma_fed_char(c, k + 1, rest);
        assert(Seq::empty() + (seq![c] + more) =~= seq![c] + more);
    }
}

/// Feeding the UTF-8 encoding of a text emits that text and withholds
/// nothing, whatever follows.
pub proof fn lemma_feed_text(text: Seq<char>, rest: Seq<u8>)
    ensures
        ({
            let (more, held) = fed(Seq::empty(), rest);
            fed(Seq::empty(), encode_utf8(text) + rest) == (text + more, held)
        }),
    decreases text.len(),
{
    let (more, held) = fed(Seq::empty(), rest);
    if text.len() == 0 {
        assert(encode_utf8(text) + rest =~= rest);
        assert(text + more =~= more);
    } else {
        let c = text[0];
        let tail = text.drop_first();
        let all = encode_utf8(seq![c]);
        lemma_one_char(c);
        lemma_feed_text(tail, rest);
        lemma_fed_char(c, 0, encode_utf8(tail) + rest);
        assert(all.take(0) =~= Seq::empty());
        assert(encode_utf8(text) + rest =~= all.skip(0) + (encode_utf8(tail) + rest));
        assert(text + more =~= seq![c] + (tail + more));
    }
}

/// What is withheld after any byte is empty or can still be completed.
pub proof fn lemma_feed_withholds(pending: Seq<u8>, b: u8)
    ensures
        feed(pending, b).1.len() == 0 || incomplete(feed(pending, b).1),
    decreases pending.len(),
{
    if pending.len() > 0 {
        lemma_feed_withholds(Seq::empty(), b);
    }
}

/// The encoding of `c` stands at the start of `bytes`.
pub open spec fn opens(bytes: Seq<u8>, c: char) -> bool {
    encode_utf8(seq![c]).is_prefix_of(bytes)
}

/// How many of `bytes`, which no character opens, are replaced together: the
/// longest start of a code point, or else one byte.
pub open spec fn broken_len(bytes: Seq<u8>) -> nat {
    if bytes.len() >= 3 && incomplete(bytes.take(3)) {
        3
    } else if bytes.len() >= 2 && incomplete(bytes.take(2)) {
        2
    } else {
        1
    }
}

/// The lossy decoding of a run of bytes: its characters, and one replacement
/// character for each broken part.
pub open spec fn lossy(bytes: Seq<u8>) -> Seq<char>
    decreases bytes.len(),
{
    if bytes.len() == 0 {
        Seq::empty()
    } else if exists|c: char| opens(bytes, c) {
        let c = choose|c: char| opens(bytes, c);
        proof {
            lemma_one_char(c);
        }
        seq![c] + lossy(bytes.skip(encode_utf8(seq![c]).len() as int))
    } else {
        seq![REPLACEMENT] + lossy(bytes.skip(broken_len(bytes) as int))
    }
}

/// The last part of a run of bytes, where it can still be completed.
pub open spec fn unfinished(bytes: Seq<u8>) -> Seq<u8>
    decreases bytes.len(),
{
    if bytes.len() == 0 || incomplete(bytes) {
        bytes
    } else if exists|c: char| opens(bytes, c) {
        let c = choose|c: char| opens(bytes, c);
        proof {
            lemma_one_char(c);
        }
        unfinished(bytes.skip(encode_utf8(seq![c]).len() as int))
    } else {
        unfinished(bytes.skip(broken_len(bytes) as int))
    }
}

/// Any start of an incomplete code point is one.
proof fn lemma_incomplete_start(bytes: Seq<u8>, k: int)
    requires
        incomplete(bytes),
        0 < k <= bytes.len(),
    ensures
        incomplete(bytes.take(k)),
{
    let c = choose|c: char| begins(bytes, c);
    let all = encode_utf8(seq![c]);
    assert(bytes.take(k) =~= all.take(k));
    assert(begins(bytes.take(k), c));
}

/// The first byte of a character tells how many there are.
proof fn lemma_first_byte(c: char, d: char)
    requires
        encode_utf8(seq![c])[0] == encode_utf8(seq![d])[0],
    ensures
        encode_utf8(seq![c]).len() == encode_utf8(seq![d]).len(),
{
    lemma_one_char(c);
    lemma_one_char(d);
    encode_utf8_first_scalar(seq![c]);
    encode_utf8_first_scalar(seq![d]);
}

/// Only one character opens a run of bytes.
proof fn lemma_opens_one(bytes: Seq<u8>, c: char, d: char)
    requires
        opens(bytes, c),
        opens(bytes, d),
    ensures
        c == d,
{
    let (a, b) = (encode_utf8(seq![c]), encode_utf8(seq![d]));
    lemma_one_char(c);
    lemma_one_char(d);
    assert(a[0] == bytes[0] && b[0] == bytes[0]);
    lemma_first_byte(c, d);
    assert(a =~= b);
    encode_utf8_decode_utf8(seq![c]);
    encode_utf8_decode_utf8(seq![d]);
    assert(seq![c][0] == seq![d][0]);
}

/// A run that goes on from an incomplete code point is opened only by a
/// character that the code point begins.
proof fn lemma_opens_past(pending: Seq<u8>, bytes: Seq<u8>, c: char)
    requires
        incomplete(pending),
        opens(pending + bytes, c),
    ensures
        begins(pending, c),
{
    let d = choose|d: char| begins(pending, d);
    let (a, b) = (encode_utf8(seq![c]), encode_utf8(seq![d]));
    lemma_one_char(c);
    lemma_one_char(d);
    assert(a[0] == (pending + bytes)[0]);
    lemma_first_byte(c, d);
    assert(pending =~= a.take(pending.len() as int)) by {
        assert forall|i: int| 0 <= i < pending.len() implies pending[i] == a[i] by {
            assert(a[i] == (pending + bytes)[i]);
        }
    }
}

/// A code point that one more byte completes is a single character.
proof fn lemma_completes(pending: Seq<u8>, b: u8) -> (c: char)
    requires
        pending.len() == 0 || incomplete(pending),
        valid_utf8(pending.push(b)),
    ensures
        encode_utf8(seq![c]) == pending.push(b),
        decode_utf8(pending.push(b)) == seq![c],
{
    let run = pending.push(b);
    let text = decode_utf8(run);
    decode_utf8_encode_utf8(run);
    assert(text.len() > 0) by {
        if text.len() == 0 {
            assert(text =~= Seq::empty());
            assert(encode_utf8(text).len() == 0);
        }
    }
    let c = text[0];
    let rest = text.drop_first();
    assert(text =~= seq![c] + rest);
    lemma_encode_concat(seq![c], rest);
    let all = encode_utf8(seq![c]);
    lemma_one_char(c);
    assert(run =~= all + encode_utf8(rest));
    if pending.len() > 0 {
        assert(opens(pending + seq![b], c)) by {
            assert(pending + seq![b] =~= run);
        }
        lemma_opens_past(pending, seq![b], c);
    }
    assert(all.len() == run.len());
    if rest.len() > 0 {
        lemma_one_char(rest[0]);
        assert(rest =~= seq![rest[0]] + rest.drop_first());
        lemma_encode_concat(seq![rest[0]], rest.drop_first());
    }
    assert(rest =~= Seq::empty());
    assert(text =~= seq![c]);
    c
}

/// No character opens what cannot be completed, and it is replaced as one.
proof fn lemma_broken(pending: Seq<u8>, b: u8, rest: Seq<u8>)
    requires
        pending.len() == 0 || incomplete(pending),
        !valid_utf8(pending.push(b)),
        !incomplete(pending.push(b)),
    ensures
        ({
            let all = pending.push(b) + rest;
            &&& forall|c: char| !opens(all, c)
            &&& !incomplete(all)
            &&& broken_len(all) == if pending.len() == 0 {
                1
            } else {
                pending.len()
            }
        }),
{
    let run = pending.push(b);
    let all = run + rest;
    lemma_prefix_form(pending);
    assert forall|c: char| !opens(all, c) by {
        if opens(all, c) {
            let e = encode_utf8(seq![c]);
            lemma_one_char(c);
            if pending.len() > 0 {
                assert(pending + (seq![b] + rest) =~= all);
                lemma_opens_past(pending, seq![b] + rest, c);
            }
            assert(run =~= e.take(run.len() as int)) by {
                assert forall|i: int| 0 <= i < run.len() implies run[i] == e[i] by {
                    assert(e[i] == all[i]);
                }
            }
            if e.len() == run.len() {
                assert(e =~= run);
                encode_utf8_valid_utf8(seq![c]);
            } else {
                assert(begins(run, c));
            }
        }
    }
    let n = run.len() as int;
    assert forall|m: int| n <= m <= all.len() implies !incomplete(#[trigger] all.take(m)) by {
        if incomplete(all.take(m)) {
            lemma_incomplete_start(all.take(m), n);
            assert(all.take(m).take(n) =~= run);
        }
    }
    assert(all.take(all.len() as int) =~= all);
    if pending.len() > 0 {
        assert(all.take(pending.len() as int) =~= pending);
    }
}

/// What is left unfinished is replaced as one.
proof fn lemma_unfinished_replaced(pending: Seq<u8>)
    requires
        incomplete(pending),
    ensures
        lossy(pending) == seq![REPLACEMENT],
{
    lemma_prefix_form(pending);
    assert forall|c: char| !opens(pending, c) by {
        if opens(pending, c) {
            assert(pending + Seq::<u8>::empty() =~= pending);
            lemma_opens_past(pending, Seq::empty(), c);
        }
    }
    assert(pending.take(pending.len() as int) =~= pending);
    let rest = pending.skip(broken_len(pending) as int);
    assert(rest =~= Seq::empty());
    assert(lossy(rest) =~= Seq::empty());
    assert(lossy(pending) == seq![REPLACEMENT] + lossy(rest));
    assert(seq![REPLACEMENT] + Seq::<char>::empty() =~= seq![REPLACEMENT]);
}

proof fn lemma_fed_lossy(pending: Seq<u8>, bytes: Seq<u8>)
    requires
        pending.len() == 0 || incomplete(pending),
    ensures
        ({
            let (chars, held) = fed(pending, bytes);
            &&& chars + flushed(held) == lossy(pending + bytes)
            &&& held == unfinished(pending + bytes)
        }),
    decreases bytes.len(), pending.len(),
{
    let all = pending + bytes;
    let (chars, held) = fed(pending, bytes);
    if bytes.len() == 0 {
        assert(all =~= pending);
        if pending.len() > 0 {
            lemma_unfinished_replaced(pending);
        }
        assert(chars + flushed(held) =~= flushed(pending));
    } else {
        let b = bytes[0];
        let rest = bytes.drop_first();
        let run = pending.push(b);
        let (first, kept) = feed(pending, b);
        let (more, last) = fed(kept, rest);
        assert(all =~= run + rest);
        if valid_utf8(run) {
            let c = lemma_completes(pending, b);
            assert(opens(all, c));
            let d = choose|d: char| opens(all, d);
            lemma_opens_one(all, c, d);
            assert(all.skip(run.len() as int) =~= rest);
            assert(Seq::<u8>::empty() + rest =~= rest);
            lemma_fed_lossy(Seq::empty(), rest);
            assert((seq![c] + more) + flushed(last) =~= seq![c] + (more + flushed(last)));
            assert(!incomplete(all)) by {
                if incomplete(all) {
                    lemma_incomplete_start(all, run.len() as int);
                    assert(all.take(run.len() as int) =~= run);
                    let e = choose|e: char| begins(run, e);
                    lemma_prefix_not_valid(run, e);
                }
            }
        } else if incomplete(run) {
            lemma_fed_lossy(run, rest);
            assert((Seq::<char>::empty() + more) + flushed(last) =~= more + flushed(last));
        } else if pending.len() == 0 {
            lemma_broken(pending, b, rest);
            lemma_fed_lossy(Seq::empty(), rest);
            assert(all.skip(1) =~= Seq::<u8>::empty() + rest);
            assert((seq![REPLACEMENT] + more) + flushed(last) =~= seq![REPLACEMENT] + (more
                + flushed(last)));
        } else {
            lemma_broken(pending, b, rest);
            lemma_fed_lossy(Seq::empty(), bytes);
            assert(all.skip(pending.len() as int) =~= Seq::<u8>::empty() + bytes);
            let (alone, after) = feed(Seq::empty(), b);
            assert((seq![REPLACEMENT] + alone) + more =~= seq![REPLACEMENT] + (alone + more));
            assert((seq![REPLACEMENT] + (alone + more)) + flushed(last) =~= seq![REPLACEMENT] + ((
            alone + more) + flushed(last)));
        }
    }
}

/// Whatever bytes are fed, what has been emitted is the lossy decoding of all
/// of them, but for the replacement of what is still withheld.
pub proof fn lemma_feed_is_lossy(bytes: Seq<u8>)
    ensures
        ({
            let (chars, held) = fed(Seq::empty(), bytes);
            chars + flushed(held) == lossy(bytes)
        }),
{
    assert(Seq::<u8>::empty() + bytes =~= bytes);
    lemma_fed_lossy(Seq::empty(), bytes);
}

/// What is withheld is the last part of the bytes fed, where that can still be
/// completed: their end, at most three of them.
pub proof fn lemma_feed_holds_the_end(bytes: Seq<u8>)
    ensures
        ({
            let held = fed(Seq::empty(), bytes).1;
            &&& held == unfinished(bytes)
            &&& held.is_suffix_of(bytes)
            &&& held.len() <= 3
            &&& held.len() == 0 || incomplete(held)
        }),
{
    assert(Seq::<u8>::empty() + bytes =~= bytes);
    lemma_fed_lossy(Seq::empty(), bytes);
    lemma_unfinished_end(bytes);
    lemma_prefix_form(unfinished(bytes));
}

proof fn lemma_unfinished_end(bytes: Seq<u8>)
    ensures
        unfinished(bytes).is_suffix_of(bytes),
        unfinished(bytes).len() == 0 || incomplete(unfinished(bytes)),
    decreases bytes.len(),
{
    if bytes.len() == 0 || incomplete(bytes) {
        assert(bytes.subrange(0, bytes.len() as int) =~= bytes);
    } else {
        let n = if exists|c: char| opens(bytes, c) {
            let c = choose|c: char| opens(bytes, c);
            lemma_one_char(c);
            encode_utf8(seq![c]).len() as int
        } else {
            broken_len(bytes) as int
        };
        let rest = bytes.skip(n);
        lemma_unfinished_end(rest);
        let held = unfinished(rest);
        assert(held =~= bytes.subrange(bytes.len() - held.len(), bytes.len() as int)) by {
            assert(held == rest.subrange(rest.len() - held.len(), rest.len() as int));
        }
    }
}

/// Feeding one more byte adds what that byte completes.
pub proof fn lemma_feed_one_more(pending: Seq<u8>, bytes: Seq<u8>, b: u8)
    ensures
        ({
            let (chars, held) = fed(pending, bytes);
            let (more, rest) = feed(held, b);
            fed(pending, bytes.push(b)) == (chars + more, rest)
        }),
    decreases bytes.len(),
{
    let next = bytes.push(b);
    let (chars, held) = fed(pending, bytes);
    let (more, rest) = feed(held, b);
    if bytes.len() == 0 {
        assert(next.drop_first() =~= Seq::empty());
        assert(fed(rest, Seq::empty()) == (Seq::<char>::empty(), rest));
        assert(more + Seq::<char>::empty() =~= more);
        assert(Seq::<char>::empty() + more =~= more);
    } else {
        let (first, kept) = feed(pending, bytes[0]);
        lemma_feed_one_more(kept, bytes.drop_first(), b);
        assert(next.drop_first() =~= bytes.drop_first().push(b));
        let between = fed(kept, bytes.drop_first()).0;
        assert(first + (between + more) =~= (first + between) + more);
    }
}

proof fn lemma_fed_start(start: Seq<u8>, k: int, rest: Seq<u8>)
    requires
        incomplete(start),
        0 <= k <= start.len(),
    ensures
        fed(start.take(k), start.skip(k) + rest) == fed(start, rest),
    decreases start.len() - k,
{
    if k == start.len() {
        assert(start.take(k) =~= start);
        assert(start.skip(k) + rest =~= rest);
    } else {
        let bytes = start.skip(k) + rest;
        assert(bytes[0] == start[k]);
        assert(start.take(k).push(start[k]) =~= start.take(k + 1));
        lemma_incomplete_start(start, k + 1);
        let run = start.take(k + 1);
        let c = choose|c: char| #[trigger] begins(run, c);
        assert(begins(run, c));
        lemma_prefix_not_valid(run, c);
        assert(bytes.drop_first() =~= start.skip(k + 1) + rest);
        lemma_fed_start(start, k + 1, rest);
        let (more, held) = fed(start, rest);
        assert(Seq::<char>::empty() + more =~= more);
    }
}

/// A code point that breaks off, behind any text, becomes one replacement
/// character, and what broke it off is read afresh; a byte that starts nothing
/// becomes one of its own.
pub proof fn lemma_feed_breaks(text: Seq<char>, start: Seq<u8>, b: u8, rest: Seq<u8>)
    requires
        start.len() == 0 || incomplete(start),
        !incomplete(start.push(b)),
        !valid_utf8(start.push(b)),
    ensures
        ({
            let (more, held) = fed(Seq::empty(), seq![b] + rest);
            let (after, kept) = fed(Seq::empty(), rest);
            &&& start.len() > 0 ==> fed(Seq::empty(), encode_utf8(text) + (start + (seq![b] + rest)))
                == (text + (seq!['\u{FFFD}'] + more), held)
            &&& start.len() == 0 ==> fed(Seq::empty(), encode_utf8(text) + (seq![b] + rest)) == (
                text + (seq!['\u{FFFD}'] + after),
                kept,
            )
        }),
{
    let tail = seq![b] + rest;
    assert(tail.drop_first() =~= rest);
    assert(tail[0] == b);
    if start.len() > 0 {
        lemma_feed_text(text, start + tail);
        assert(start.take(0) =~= Seq::empty());
        assert(start.skip(0) + tail =~= start + tail);
        lemma_fed_start(start, 0, tail);
        let (chars, held) = feed(Seq::empty(), b);
        let (more, kept) = fed(held, rest);
        assert((seq![REPLACEMENT] + chars) + more =~= seq![REPLACEMENT] + (chars + more));
    } else {
        assert(start =~= Seq::empty());
        lemma_feed_text(text, tail);
    }
}

} // verus!
