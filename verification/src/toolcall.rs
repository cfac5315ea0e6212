//! Streaming parser for model output: splits the token stream into content,
//! thought-channel, and tool-call events.
//!
//! Wire format:
//!   `<|channel>thought\n…<channel|>`      reasoning span
//!   `<|tool_call>call:NAME{ARGS}<tool_call|>`  one tool invocation
//!   `<|tool_response>`                    model requests tool results
//!   `<turn|>` / `<eos>`                   end of turn
//! ARGS use Gemma's argument syntax (see [`crate::args`]).
//!
//! Channel boundaries are detected by *token id*, never by matching marker
//! strings in decoded text: lookalike text can't fake a control token.

use vstd::prelude::*;
use vstd::string::*;

use crate::args::{at_byte, gap, lemma_past_gap, parsed_object, past_white, ArgParser};
use crate::detok::{flushed, DetokBuffer};
use crate::json::{Json, JsonView};
use crate::text::{chars_of, has_at, push_range, stands_at, trim_range, trimmed};
use crate::tokenizer::{decode_run, decode_step, decoded, DecodeError, Tokenizer};
use crate::vocab::{lemma_id_names_piece, Vocab, VocabView};

verus! {

/// One parsed event. Deltas are incremental and UTF-8 complete.
#[derive(Debug, Clone, PartialEq)]
pub enum TurnEvent {
    ContentDelta(String),
    ThinkingDelta(String),
    ToolCall { name: String, arguments: Json },
    /// A `<|tool_call>` block that didn't parse; raw text preserved so the
    /// caller can surface it.
    InvalidToolCall { raw: String, error: String },
    /// `<|tool_response>`: the model expects tool results before continuing.
    AwaitingToolResponse,
    /// `<turn|>` or `<eos>`.
    EndOfTurn,
}

pub enum EventView {
    ContentDelta(Seq<char>),
    ThinkingDelta(Seq<char>),
    ToolCall { name: Seq<char>, arguments: JsonView },
    InvalidToolCall { raw: Seq<char>, error: Seq<char> },
    AwaitingToolResponse,
    EndOfTurn,
}

impl View for TurnEvent {
    type V = EventView;

    open spec fn view(&self) -> EventView {
        match *self {
            TurnEvent::ContentDelta(t) => EventView::ContentDelta(t@),
            TurnEvent::ThinkingDelta(t) => EventView::ThinkingDelta(t@),
            TurnEvent::ToolCall { name, arguments } => EventView::ToolCall {
                name: name@,
                arguments: arguments@,
            },
            TurnEvent::InvalidToolCall { raw, error } => EventView::InvalidToolCall {
                raw: raw@,
                error: error@,
            },
            TurnEvent::AwaitingToolResponse => EventView::AwaitingToolResponse,
            TurnEvent::EndOfTurn => EventView::EndOfTurn,
        }
    }
}

/// A list of events with their texts.
pub open spec fn event_views(events: Seq<TurnEvent>) -> Seq<EventView> {
    events.map_values(|e: TurnEvent| e@)
}

/// `i` is where the first `{` of `s` stands.
pub open spec fn first_brace(s: Seq<char>, i: int) -> bool {
    &&& 0 <= i < s.len()
    &&& s[i] == '{'
    &&& forall|j: int| 0 <= j < i ==> #[trigger] s[j] != '{'
}

/// `call:NAME{ARGS}` read as a name and arguments, or what is wrong with it.
pub open spec fn parsed_call(raw: Seq<char>) -> Result<(Seq<char>, JsonView), Seq<char>> {
    let rest = raw.skip("call:"@.len() as int);
    if !stands_at(raw, 0, "call:"@) {
        Err("missing `call:` prefix"@)
    } else if !exists|i: int| first_brace(rest, i) {
        Err("missing `{` after function name"@)
    } else {
        let brace = choose|i: int| first_brace(rest, i);
        let name = trimmed(rest.take(brace));
        let input = rest.skip(brace);
        if name.len() == 0 {
            Err("empty function name"@)
        } else {
            match parsed_object(input, 0) {
                Err(e) => Err(e),
                Ok((args, end)) => {
                    let p = past_white(input, end);
                    if p != input.len() {
                        Err(at_byte("trailing input after arguments at byte "@, input, p))
                    } else {
                        Ok((name, args))
                    }
                },
            }
        }
    }
}

/// The event of a tool-call block.
pub open spec fn call_event(raw: Seq<char>) -> EventView {
    match parsed_call(raw) {
        Ok((name, arguments)) => EventView::ToolCall { name, arguments },
        Err(error) => EventView::InvalidToolCall { raw, error },
    }
}

/// Where the parser stands.
pub enum StateView {
    Content,
    /// After `<|channel>`, with the header line read so far.
    ChannelHeader(Seq<char>),
    /// Inside a channel body.
    Channel,
    /// Inside a tool-call block, with its text so far.
    ToolCall(Seq<char>),
}

/// The state of the parser, and the control tokens it follows.
pub struct ParserView {
    pub state: StateView,
    pub pending: Seq<u8>,
    pub channel_open: u32,
    pub channel_close: u32,
    pub tool_call_open: u32,
    pub tool_call_close: u32,
    pub tool_response_open: u32,
    pub eot: u32,
    pub eos: u32,
}

/// `i` is where the first line of `s` ends.
pub open spec fn line_end(s: Seq<char>, i: int) -> bool {
    &&& 0 <= i < s.len()
    &&& s[i] == '\n'
    &&& forall|j: int| 0 <= j < i ==> #[trigger] s[j] != '\n'
}

/// Text in a state: the next state, and the events.
pub open spec fn take_text(state: StateView, text: Seq<char>) -> (StateView, Seq<EventView>) {
    if text.len() == 0 {
        (state, Seq::empty())
    } else {
        match state {
            StateView::Content => (state, seq![EventView::ContentDelta(text)]),
            StateView::Channel => (state, seq![EventView::ThinkingDelta(text)]),
            StateView::ToolCall(raw) => (StateView::ToolCall(raw + text), Seq::empty()),
            StateView::ChannelHeader(header) => {
                let line = header + text;
                if exists|i: int| line_end(line, i) {
                    let body = line.skip((choose|i: int| line_end(line, i)) + 1);
                    (
                        StateView::Channel,
                        if body.len() > 0 {
                            seq![EventView::ThinkingDelta(body)]
                        } else {
                            Seq::empty()
                        },
                    )
                } else {
                    (StateView::ChannelHeader(line), Seq::empty())
                }
            },
        }
    }
}

impl ParserView {
    /// The text segment closed out: what is withheld is emitted where it
    /// belongs.
    pub open spec fn segment_ended(self) -> (ParserView, Seq<EventView>) {
        let tail = flushed(self.pending);
        let next = ParserView { pending: Seq::empty(), ..self };
        if tail.len() == 0 {
            (next, Seq::empty())
        } else {
            match self.state {
                StateView::Content => (next, seq![EventView::ContentDelta(tail)]),
                StateView::Channel | StateView::ChannelHeader(_) => (
                    next,
                    seq![EventView::ThinkingDelta(tail)],
                ),
                StateView::ToolCall(raw) => (
                    ParserView { state: StateView::ToolCall(raw + tail), ..next },
                    Seq::empty(),
                ),
            }
        }
    }

    /// The stream ended: a tool call that was begun is invalid, and the state
    /// is that of a new turn.
    pub open spec fn finished(self) -> (ParserView, Seq<EventView>) {
        let (ended, events) = self.segment_ended();
        let more = match ended.state {
            StateView::ToolCall(raw) => if raw.len() > 0 {
                seq![
                    EventView::InvalidToolCall { raw, error: "unterminated tool call"@ },
                ]
            } else {
                Seq::empty()
            },
            _ => Seq::empty(),
        };
        (ParserView { state: StateView::Content, ..ended }, events + more)
    }

    /// One token read: the next state, and the events.
    pub open spec fn stepped(self, v: VocabView, id: u32) -> (ParserView, Seq<EventView>) {
        let (ended, events) = self.segment_ended();
        if id == self.eot || id == self.eos {
            (ParserView { state: StateView::Content, ..ended }, events.push(EventView::EndOfTurn))
        } else if id == self.tool_call_open {
            (ParserView { state: StateView::ToolCall(Seq::empty()), ..ended }, events)
        } else if id == self.tool_call_close {
            match self.state {
                StateView::ToolCall(raw) => (
                    ParserView { state: StateView::Content, pending: Seq::empty(), ..self },
                    seq![call_event(raw + flushed(self.pending))],
                ),
                _ => (ParserView { state: StateView::Content, ..self }, Seq::empty()),
            }
        } else if id == self.channel_open {
            (ParserView { state: StateView::ChannelHeader(Seq::empty()), ..ended }, events)
        } else if id == self.channel_close {
            (ParserView { state: StateView::Content, ..ended }, events)
        } else if id == self.tool_response_open {
            (ended, events.push(EventView::AwaitingToolResponse))
        } else {
            let (text, held) = decode_step(v, self.pending, id);
            let (state, events) = take_text(self.state, text);
            (ParserView { state, pending: held, ..self }, events)
        }
    }

    /// Whether `id` is one of the control tokens.
    pub open spec fn is_control(self, id: u32) -> bool {
        ||| id == self.eot
        ||| id == self.eos
        ||| id == self.tool_call_open
        ||| id == self.tool_call_close
        ||| id == self.channel_open
        ||| id == self.channel_close
        ||| id == self.tool_response_open
    }
}

#[derive(Debug)]
enum State {
    Content,
    /// After `<|channel>`, reading the header line (e.g. `thought`).
    ChannelHeader { header: String },
    /// Inside a channel body until `<channel|>`.
    Channel,
    /// Inside `<|tool_call>…<tool_call|>`, accumulating raw text.
    ToolCall { raw: String },
}

impl View for State {
    type V = StateView;

    closed spec fn view(&self) -> StateView {
        match *self {
            State::Content => StateView::Content,
            State::ChannelHeader { header } => StateView::ChannelHeader(header@),
            State::Channel => StateView::Channel,
            State::ToolCall { raw } => StateView::ToolCall(raw@),
        }
    }
}

/// Incremental token-stream parser for one model turn (or several: the state
/// resets at each `EndOfTurn`).
#[derive(Debug)]
pub struct TurnParser {
    state: State,
    detok: DetokBuffer,
    channel_open: u32,
    channel_close: u32,
    tool_call_open: u32,
    tool_call_close: u32,
    tool_response_open: u32,
    eot: u32,
    eos: u32,
}

impl View for TurnParser {
    type V = ParserView;

    closed spec fn view(&self) -> ParserView {
        ParserView {
            state: self.state@,
            pending: self.detok@,
            channel_open: self.channel_open,
            channel_close: self.channel_close,
            tool_call_open: self.tool_call_open,
            tool_call_close: self.tool_call_close,
            tool_response_open: self.tool_response_open,
            eot: self.eot,
            eos: self.eos,
        }
    }
}

/// The vocabulary has the control tokens that frame a turn.
pub open spec fn has_controls(v: VocabView) -> bool {
    &&& v.id_of("<|channel>"@) is Some
    &&& v.id_of("<channel|>"@) is Some
    &&& v.id_of("<|tool_call>"@) is Some
    &&& v.id_of("<tool_call|>"@) is Some
    &&& v.id_of("<|tool_response>"@) is Some
}

/// A parser at the start of a turn.
pub open spec fn fresh_parser(v: VocabView) -> ParserView {
    ParserView {
        state: StateView::Content,
        pending: Seq::empty(),
        channel_open: v.id_of("<|channel>"@)->0,
        channel_close: v.id_of("<channel|>"@)->0,
        tool_call_open: v.id_of("<|tool_call>"@)->0,
        tool_call_close: v.id_of("<tool_call|>"@)->0,
        tool_response_open: v.id_of("<|tool_response>"@)->0,
        eot: v.eot,
        eos: v.eos,
    }
}

/// The id of a control token.
fn control_id(vocab: &Vocab, piece: &str) -> (id: u32)
    requires
        vocab@.id_of(piece@) is Some,
    ensures
        id == vocab@.id_of(piece@)->0,
{
    match vocab.id_of(piece) {
        Some(id) => id,
        None => 0,
    }
}

/// Appends an event.
fn emit(events: &mut Vec<TurnEvent>, e: TurnEvent)
    ensures
        event_views(final(events)@) == event_views(old(events)@).push(e@),
{
    let ghost had = events@;
    events.push(e);
    assert(event_views(events@) =~= event_views(had).push(e@));
}

/// Whether a text is empty.
fn is_blank(s: &String) -> (r: bool)
    ensures
        r == (s@.len() == 0),
{
    proof {
        reveal_strlit("");
        assert(s@.len() == 0 ==> s@ =~= ""@);
    }
    crate::text::same_text(s.as_str(), "")
}

/// Text in a state: the next state; its events are appended.
fn accept_text(state: State, text: String, events: &mut Vec<TurnEvent>) -> (next: State)
    ensures
        next@ == take_text(state@, text@).0,
        event_views(final(events)@) == event_views(old(events)@) + take_text(state@, text@).1,
{
    let ghost had = event_views(events@);
    if is_blank(&text) {
        assert(had + Seq::<EventView>::empty() =~= had);
        return state;
    }
    match state {
        State::Content => {
            emit(events, TurnEvent::ContentDelta(text));
            assert(event_views(events@) =~= had + seq![EventView::ContentDelta(text@)]);
            State::Content
        },
        State::Channel => {
            emit(events, TurnEvent::ThinkingDelta(text));
            assert(event_views(events@) =~= had + seq![EventView::ThinkingDelta(text@)]);
            State::Channel
        },
        State::ToolCall { mut raw } => {
            raw.append(text.as_str());
            assert(had + Seq::<EventView>::empty() =~= had);
            State::ToolCall { raw }
        },
        State::ChannelHeader { mut header } => {
            header.append(text.as_str());
            let line = chars_of(header.as_str());
            let n: usize = line.len();
            let mut i: usize = 0;
            while i < n && line[i] != '\n'
                invariant
                    i <= n,
                    n == line@.len(),
                    forall|j: int| 0 <= j < i ==> #[trigger] line@[j] != '\n',
                decreases n - i,
            {
                i = i + 1;
            }
            if i == n {
                assert(had + Seq::<EventView>::empty() =~= had);
                return State::ChannelHeader { header };
            }
            // Body text may arrive in the same token as the header newline.
            assert(line_end(line@, i as int));
            proof {
                let k = choose|k: int| line_end(line@, k);
                assert(line_end(line@, k));
                assert(k == i);
            }
            let mut body = String::new();
            push_range(&mut body, &line, i + 1, n);
            assert(body@ =~= line@.skip(i + 1));
            if !is_blank(&body) {
                emit(events, TurnEvent::ThinkingDelta(body));
                assert(event_views(events@) =~= had + seq![EventView::ThinkingDelta(body@)]);
            } else {
                assert(had + Seq::<EventView>::empty() =~= had);
            }
            State::Channel
        },
    }
}

impl TurnParser {
    pub fn new(vocab: &Vocab) -> (p: Self)
        requires
            has_controls(vocab@),
        ensures
            p@ == fresh_parser(vocab@),
    {
        TurnParser {
            state: State::Content,
            detok: DetokBuffer::new(),
            channel_open: control_id(vocab, "<|channel>"),
            channel_close: control_id(vocab, "<channel|>"),
            tool_call_open: control_id(vocab, "<|tool_call>"),
            tool_call_close: control_id(vocab, "<tool_call|>"),
            tool_response_open: control_id(vocab, "<|tool_response>"),
            eot: vocab.eot(),
            eos: vocab.eos(),
        }
    }

    /// Feeds one sampled token; parsed events are appended to `events`.
    pub fn push(&mut self, tokenizer: &Tokenizer, id: u32, events: &mut Vec<TurnEvent>) -> (r:
        Result<(), DecodeError>)
        ensures
            match r {
                Ok(()) => {
                    &&& old(self)@.is_control(id) || (id as int) < tokenizer@.pieces.len()
                    &&& final(self)@ == old(self)@.stepped(tokenizer@, id).0
                    &&& event_views(final(events)@) == event_views(old(events)@) + old(
                        self,
                    )@.stepped(tokenizer@, id).1
                },
                Err(DecodeError::IdOutOfRange(e)) => {
                    &&& e == id
                    &&& !old(self)@.is_control(id)
                    &&& id as int >= tokenizer@.pieces.len()
                    &&& final(self)@ == old(self)@
                    &&& event_views(final(events)@) == event_views(old(events)@)
                },
            },
    {
        let ghost had = event_views(events@);
        let ghost start = self@;
        // Structural tokens switch state regardless of where they appear: the
        // model owns the framing, the parser just follows.
        if id == self.eot || id == self.eos {
            self.end_segment(events);
            self.state = State::Content;
            emit(events, TurnEvent::EndOfTurn);
            assert(event_views(events@) =~= had + start.stepped(tokenizer@, id).1);
            return Ok(());
        }
        if id == self.tool_call_open {
            self.end_segment(events);
            self.state = State::ToolCall { raw: String::new() };
            assert(self.state@->ToolCall_0 =~= Seq::empty());
            return Ok(());
        }
        if id == self.tool_call_close {
            let mut state = State::Content;
            std::mem::swap(&mut self.state, &mut state);
            if let State::ToolCall { raw } = state {
                let mut raw = raw;
                self.detok.flush(&mut raw);
                emit(events, parse_tool_call(raw.as_str()));
                assert(event_views(events@) =~= had + start.stepped(tokenizer@, id).1);
            } else {
                assert(had + Seq::<EventView>::empty() =~= had);
            }
            return Ok(());
        }
        if id == self.channel_open {
            self.end_segment(events);
            self.state = State::ChannelHeader { header: String::new() };
            assert(self.state@->ChannelHeader_0 =~= Seq::empty());
            return Ok(());
        }
        if id == self.channel_close {
            self.end_segment(events);
            self.state = State::Content;
            return Ok(());
        }
        if id == self.tool_response_open {
            self.end_segment(events);
            emit(events, TurnEvent::AwaitingToolResponse);
            assert(event_views(events@) =~= had + start.stepped(tokenizer@, id).1);
            return Ok(());
        }
        // Ordinary text: decode into the current segment.
        let mut text = String::new();
        if let Err(e) = tokenizer.decode_streaming(id, &mut self.detok, &mut text) {
            return Err(e);
        }
        assert(text@ =~= decode_step(tokenizer@, start.pending, id).0);
        let mut state = State::Content;
        std::mem::swap(&mut self.state, &mut state);
        self.state = accept_text(state, text, events);
        Ok(())
    }

    /// Flushes at end of stream (aborted generation): pending partial UTF-8
    /// degrades to U+FFFD, an unterminated tool call surfaces as invalid.
    pub fn finish(&mut self, events: &mut Vec<TurnEvent>)
        ensures
            final(self)@ == old(self)@.finished().0,
            event_views(final(events)@) == event_views(old(events)@) + old(self)@.finished().1,
    {
        let ghost had = event_views(events@);
        let ghost start = self@;
        self.end_segment(events);
        let mut state = State::Content;
        std::mem::swap(&mut self.state, &mut state);
        if let State::ToolCall { raw } = state {
            if !is_blank(&raw) {
                emit(
                    events,
                    TurnEvent::InvalidToolCall { raw, error: "unterminated tool call".to_owned() },
                );
            }
        }
        assert(event_views(events@) =~= had + start.finished().1);
    }

    /// Closes out the current text segment across a structural boundary.
    fn end_segment(&mut self, events: &mut Vec<TurnEvent>)
        ensures
            final(self)@ == old(self)@.segment_ended().0,
            event_views(final(events)@) == event_views(old(events)@) + old(self)@.segment_ended().1,
    {
        let ghost had = event_views(events@);
        let ghost start = self@;
        let mut tail = String::new();
        self.detok.flush(&mut tail);
        assert(tail@ =~= flushed(start.pending));
        if is_blank(&tail) {
            assert(had + Seq::<EventView>::empty() =~= had);
            return;
        }
        let mut state = State::Content;
        std::mem::swap(&mut self.state, &mut state);
        match state {
            State::Content => {
                emit(events, TurnEvent::ContentDelta(tail));
            },
            State::Channel => {
                emit(events, TurnEvent::ThinkingDelta(tail));
                self.state = State::Channel;
            },
            State::ChannelHeader { header } => {
                emit(events, TurnEvent::ThinkingDelta(tail));
                self.state = State::ChannelHeader { header };
            },
            State::ToolCall { mut raw } => {
                raw.append(tail.as_str());
                self.state = State::ToolCall { raw };
            },
        }
        assert(event_views(events@) =~= had + start.segment_ended().1);
    }
}

/// Parses `call:NAME{ARGS}` into a [`TurnEvent`].
pub fn parse_tool_call(raw: &str) -> (e: TurnEvent)
    ensures
        e@ == call_event(raw@),
{
    match try_parse_tool_call(raw) {
        Ok((name, arguments)) => TurnEvent::ToolCall { name, arguments },
        Err(error) => TurnEvent::InvalidToolCall { raw: raw.to_owned(), error },
    }
}

/// Reads `call:NAME{ARGS}` as a name and arguments.
pub fn try_parse_tool_call(raw: &str) -> (r: Result<(String, Json), String>)
    ensures
        match r {
            Ok((name, args)) => parsed_call(raw@) == Ok::<(Seq<char>, JsonView), Seq<char>>(
                (name@, args@),
            ),
            Err(e) => parsed_call(raw@) == Err::<(Seq<char>, JsonView), Seq<char>>(e@),
        },
{
    let chars = chars_of(raw);
    let prefix = chars_of("call:");
    if !has_at(&chars, 0, &prefix) {
        return Err("missing `call:` prefix".to_owned());
    }
    let n: usize = chars.len();
    let from: usize = prefix.len();
    let ghost rest = raw@.skip(from as int);
    let mut brace: usize = from;
    while brace < n && chars[brace] != '{'
        invariant
            from <= brace <= n,
            n == chars@.len(),
            chars@ == raw@,
            rest == raw@.skip(from as int),
            forall|j: int| 0 <= j < brace - from ==> #[trigger] rest[j] != '{',
        decreases n - brace,
    {
        assert(rest[brace - from] == chars@[brace as int]);
        brace = brace + 1;
    }
    if brace == n {
        return Err("missing `{` after function name".to_owned());
    }
    proof {
        let i = brace - from;
        assert(first_brace(rest, i));
        let k = choose|k: int| first_brace(rest, k);
        assert(first_brace(rest, k));
        assert(k == i);
        assert(rest.take(i) =~= chars@.subrange(from as int, brace as int));
    }
    let (a, b) = trim_range(&chars, from, brace);
    if a == b {
        return Err("empty function name".to_owned());
    }
    let mut name = String::new();
    push_range(&mut name, &chars, a, b);
    assert(name@ =~= chars@.subrange(a as int, b as int));
    let mut input = String::new();
    push_range(&mut input, &chars, brace, n);
    assert(input@ =~= rest.skip(brace - from));
    let mut p = ArgParser::new(input.as_str());
    let args = match p.object() {
        Ok(args) => args,
        Err(e) => {
            return Err(e);
        },
    };
    p.skip_ws();
    if !p.at_end() {
        return Err(p.error("trailing input after arguments at byte "));
    }
    Ok((name, args))
}

/// The end of a turn resets the parser: nothing is withheld, and what follows
/// is content. The text segment is closed out, and the end of the turn is the
/// one event behind it.
pub proof fn lemma_turn_end_resets(p: ParserView, v: VocabView, id: u32)
    requires
        id == p.eot || id == p.eos,
    ensures
        ({
            let (next, events) = p.stepped(v, id);
            &&& next == (ParserView { state: StateView::Content, pending: Seq::empty(), ..p })
            &&& events == p.segment_ended().1.push(EventView::EndOfTurn)
        }),
{
}

/// Ordinary tokens never frame anything: they only add text, and only control
/// tokens give tool calls, requests for results, or the end of a turn.
pub proof fn lemma_text_frames_nothing(p: ParserView, v: VocabView, id: u32)
    requires
        !p.is_control(id),
    ensures
        forall|k: int|
            0 <= k < p.stepped(v, id).1.len() ==> {
                let e = #[trigger] p.stepped(v, id).1[k];
                e is ContentDelta || e is ThinkingDelta
            },
{
}

/// The parser after a run of tokens, and the events.
pub open spec fn stepped_all(p: ParserView, v: VocabView, ids: Seq<u32>) -> (
    ParserView,
    Seq<EventView>,
)
    decreases ids.len(),
{
    if ids.len() == 0 {
        (p, Seq::empty())
    } else {
        let (before, events) = stepped_all(p, v, ids.drop_last());
        let (next, more) = before.stepped(v, ids.last());
        (next, events + more)
    }
}

/// The text of a list of content deltas.
pub open spec fn content_text(events: Seq<EventView>) -> Seq<char>
    decreases events.len(),
{
    if events.len() == 0 {
        Seq::empty()
    } else {
        content_text(events.drop_last()) + (match events.last() {
            EventView::ContentDelta(t) => t,
            _ => Seq::empty(),
        })
    }
}

proof fn lemma_content_push(events: Seq<EventView>, more: Seq<EventView>)
    requires
        more.len() <= 1,
        more.len() == 1 ==> more[0] is ContentDelta,
    ensures
        content_text(events + more) == content_text(events) + (if more.len() == 0 {
            Seq::empty()
        } else {
            more[0]->ContentDelta_0
        }),
{
    if more.len() == 0 {
        assert(events + more =~= events);
        assert(content_text(events) + Seq::<char>::empty() =~= content_text(events));
    } else {
        assert((events + more).drop_last() =~= events);
    }
}

/// Deltas are incremental: over a run of ordinary tokens in content, the
/// deltas together are the text that the tokens decode to.
pub proof fn lemma_deltas_add_up(p: ParserView, v: VocabView, ids: Seq<u32>)
    requires
        p.state is Content,
        forall|k: int| 0 <= k < ids.len() ==> !p.is_control(#[trigger] ids[k]),
    ensures
        ({
            let (next, events) = stepped_all(p, v, ids);
            let (text, held) = decode_run(v, p.pending, ids);
            &&& next == (ParserView { pending: held, ..p })
            &&& content_text(events) == text
            &&& forall|k: int| 0 <= k < events.len() ==> #[trigger] events[k] is ContentDelta
        }),
    decreases ids.len(),
{
    if ids.len() > 0 {
        let head = ids.drop_last();
        assert forall|k: int| 0 <= k < head.len() implies !p.is_control(#[trigger] head[k]) by {
            assert(head[k] == ids[k]);
        }
        lemma_deltas_add_up(p, v, head);
        let (before, events) = stepped_all(p, v, head);
        let id = ids.last();
        assert(!p.is_control(ids[ids.len() - 1]));
        let more = before.stepped(v, id).1;
        lemma_content_push(events, more);
        let text = decode_step(v, before.pending, id).0;
        if text.len() == 0 {
            assert(text =~= Seq::empty());
        }
        assert forall|k: int| 0 <= k < (events + more).len() implies #[trigger] (events
            + more)[k] is ContentDelta by {
            if k < events.len() {
                assert(events[k] is ContentDelta);
            }
        }
    }
}

/// The text of the thinking deltas of a list of events, joined.
pub open spec fn thinking_text(events: Seq<EventView>) -> Seq<char>
    decreases events.len(),
{
    if events.len() == 0 {
        Seq::empty()
    } else {
        thinking_text(events.drop_last()) + (match events.last() {
            EventView::ThinkingDelta(t) => t,
            _ => Seq::empty(),
        })
    }
}

impl ParserView {
    /// The control tokens are all different.
    pub open spec fn apart(self) -> bool {
        &&& self.tool_call_open != self.eot && self.tool_call_open != self.eos
        &&& self.tool_call_close != self.eot && self.tool_call_close != self.eos
        &&& self.tool_call_close != self.tool_call_open
        &&& self.channel_open != self.eot && self.channel_open != self.eos
        &&& self.channel_open != self.tool_call_open && self.channel_open != self.tool_call_close
        &&& self.channel_close != self.eot && self.channel_close != self.eos
        &&& self.channel_close != self.tool_call_open && self.channel_close != self.tool_call_close
        &&& self.channel_close != self.channel_open
        &&& self.tool_response_open != self.eot && self.tool_response_open != self.eos
        &&& self.tool_response_open != self.tool_call_open
        &&& self.tool_response_open != self.tool_call_close
        &&& self.tool_response_open != self.channel_open
        &&& self.tool_response_open != self.channel_close
    }
}

/// A parser on a vocabulary starts in content, withholds nothing, follows the
/// control tokens by their pieces, and these are all different.
pub proof fn lemma_fresh_parser(v: VocabView)
    requires
        v.wf(),
        has_controls(v),
    ensures
        ({
            let p = fresh_parser(v);
            &&& p.apart()
            &&& p.state is Content
            &&& p.pending == Seq::<u8>::empty()
            &&& v.piece(p.channel_open) == Some("<|channel>"@)
            &&& v.piece(p.channel_close) == Some("<channel|>"@)
            &&& v.piece(p.tool_call_open) == Some("<|tool_call>"@)
            &&& v.piece(p.tool_call_close) == Some("<tool_call|>"@)
            &&& v.piece(p.tool_response_open) == Some("<|tool_response>"@)
            &&& v.piece(p.eot) == Some("<turn|>"@)
            &&& v.piece(p.eos) == Some("<eos>"@)
        }),
{
    let p = fresh_parser(v);
    lemma_id_names_piece(v, "<|channel>"@, p.channel_open);
    lemma_id_names_piece(v, "<channel|>"@, p.channel_close);
    lemma_id_names_piece(v, "<|tool_call>"@, p.tool_call_open);
    lemma_id_names_piece(v, "<tool_call|>"@, p.tool_call_close);
    lemma_id_names_piece(v, "<|tool_response>"@, p.tool_response_open);
    reveal_strlit("<|channel>");
    reveal_strlit("<channel|>");
    reveal_strlit("<|tool_call>");
    reveal_strlit("<tool_call|>");
    reveal_strlit("<|tool_response>");
    reveal_strlit("<turn|>");
    reveal_strlit("<eos>");
    assert("<|channel>"@.len() == 10 && "<channel|>"@.len() == 10);
    assert("<|channel>"@[1] == '|' && "<channel|>"@[1] == 'c');
    assert("<|tool_call>"@.len() == 12 && "<tool_call|>"@.len() == 12);
    assert("<|tool_call>"@[1] == '|' && "<tool_call|>"@[1] == 't');
    assert("<|tool_response>"@.len() == 16 && "<turn|>"@.len() == 7 && "<eos>"@.len() == 5);
}

/// Reading one run of tokens after another.
pub proof fn lemma_stepped_in_parts(p: ParserView, v: VocabView, a: Seq<u32>, b: Seq<u32>)
    ensures
        ({
            let (mid, first) = stepped_all(p, v, a);
            let (end, second) = stepped_all(mid, v, b);
            stepped_all(p, v, a + b) == (end, first + second)
        }),
    decreases b.len(),
{
    let (mid, first) = stepped_all(p, v, a);
    if b.len() == 0 {
        assert(a + b =~= a);
        assert(first + Seq::<EventView>::empty() =~= first);
    } else {
        lemma_stepped_in_parts(p, v, a, b.drop_last());
        assert((a + b).drop_last() =~= a + b.drop_last());
        let (before, second) = stepped_all(mid, v, b.drop_last());
        let more = before.stepped(v, b.last()).1;
        assert(first + second + more =~= first + (second + more));
    }
}

/// Reading a single token.
proof fn lemma_stepped_one(p: ParserView, v: VocabView, id: u32)
    ensures
        stepped_all(p, v, seq![id]) == p.stepped(v, id),
{
    reveal_with_fuel(stepped_all, 2);
    assert(seq![id].drop_last() =~= Seq::empty());
    assert(Seq::<EventView>::empty() + p.stepped(v, id).1 =~= p.stepped(v, id).1);
}

/// Inside a tool call every ordinary token adds its text, and gives no event.
proof fn lemma_inside_call(p: ParserView, v: VocabView, raw: Seq<char>, ids: Seq<u32>)
    requires
        p.state == StateView::ToolCall(raw),
        forall|k: int| 0 <= k < ids.len() ==> !p.is_control(#[trigger] ids[k]),
    ensures
        ({
            let (text, held) = decode_run(v, p.pending, ids);
            stepped_all(p, v, ids) == (
                ParserView { state: StateView::ToolCall(raw + text), pending: held, ..p },
                Seq::<EventView>::empty(),
            )
        }),
    decreases ids.len(),
{
    if ids.len() == 0 {
        assert(raw + Seq::<char>::empty() =~= raw);
    } else {
        let head = ids.drop_last();
        assert forall|k: int| 0 <= k < head.len() implies !p.is_control(#[trigger] head[k]) by {
            assert(head[k] == ids[k]);
        }
        lemma_inside_call(p, v, raw, head);
        assert(!p.is_control(ids[ids.len() - 1]));
        let (before, held) = decode_run(v, p.pending, head);
        let more = decode_step(v, held, ids.last()).0;
        if more.len() == 0 {
            assert(more =~= Seq::empty());
            assert(before + more =~= before);
        }
        assert((raw + before) + more =~= raw + (before + more));
        assert(Seq::<EventView>::empty() + Seq::<EventView>::empty() =~= Seq::empty());
    }
}

/// Between its markers a tool call is exactly the text that its tokens decode
/// to. Whatever came before, the block gives one event of its own, that of
/// this text, and what follows is content.
pub proof fn lemma_call_is_its_text(p: ParserView, v: VocabView, ids: Seq<u32>)
    requires
        p.apart(),
        forall|k: int| 0 <= k < ids.len() ==> !p.is_control(#[trigger] ids[k]),
    ensures
        stepped_all(p, v, seq![p.tool_call_open] + ids + seq![p.tool_call_close]) == (
            ParserView { state: StateView::Content, pending: Seq::empty(), ..p },
            p.segment_ended().1 + seq![call_event(decoded(v, ids))],
        ),
{
    let opened = ParserView {
        state: StateView::ToolCall(Seq::empty()),
        pending: Seq::empty(),
        ..p
    };
    let events = p.segment_ended().1;
    lemma_stepped_one(p, v, p.tool_call_open);
    assert(p.stepped(v, p.tool_call_open) == (opened, events));
    lemma_inside_call(opened, v, Seq::empty(), ids);
    let (text, held) = decode_run(v, Seq::empty(), ids);
    assert(Seq::<char>::empty() + text =~= text);
    let inside = ParserView { state: StateView::ToolCall(text), pending: held, ..p };
    lemma_stepped_in_parts(p, v, seq![p.tool_call_open], ids);
    assert(events + Seq::<EventView>::empty() =~= events);
    lemma_stepped_one(inside, v, p.tool_call_close);
    lemma_stepped_in_parts(p, v, seq![p.tool_call_open] + ids, seq![p.tool_call_close]);
}

proof fn lemma_thinking_push(events: Seq<EventView>, more: Seq<EventView>)
    requires
        more.len() <= 1,
        more.len() == 1 ==> more[0] is ThinkingDelta,
    ensures
        thinking_text(events + more) == thinking_text(events) + (if more.len() == 0 {
            Seq::empty()
        } else {
            more[0]->ThinkingDelta_0
        }),
{
    if more.len() == 0 {
        assert(events + more =~= events);
        assert(thinking_text(events) + Seq::<char>::empty() =~= thinking_text(events));
    } else {
        assert((events + more).drop_last() =~= events);
    }
}

/// What has been thought once `text` has been read in a channel: everything
/// behind its first line.
pub open spec fn behind_first_line(text: Seq<char>, thought: Seq<char>) -> bool {
    ||| !text.contains('\n') && thought.len() == 0
    ||| exists|i: int| #[trigger] line_end(text, i) && thought == text.skip(i + 1)
}

proof fn lemma_inside_channel(p: ParserView, v: VocabView, ids: Seq<u32>)
    requires
        p.state == StateView::ChannelHeader(Seq::empty()),
        forall|k: int| 0 <= k < ids.len() ==> !p.is_control(#[trigger] ids[k]),
    ensures
        ({
            let (text, held) = decode_run(v, p.pending, ids);
            let (next, events) = stepped_all(p, v, ids);
            &&& next == (ParserView {
                state: if text.contains('\n') {
                    StateView::Channel
                } else {
                    StateView::ChannelHeader(text)
                },
                pending: held,
                ..p
            })
            &&& behind_first_line(text, thinking_text(events))
            &&& forall|k: int| 0 <= k < events.len() ==> #[trigger] events[k] is ThinkingDelta
        }),
    decreases ids.len(),
{
    if ids.len() > 0 {
        let head = ids.drop_last();
        assert forall|k: int| 0 <= k < head.len() implies !p.is_control(#[trigger] head[k]) by {
            assert(head[k] == ids[k]);
        }
        lemma_inside_channel(p, v, head);
        assert(!p.is_control(ids[ids.len() - 1]));
        let (text, held) = decode_run(v, p.pending, head);
        let (before, events) = stepped_all(p, v, head);
        let add = decode_step(v, held, ids.last()).0;
        let more = before.stepped(v, ids.last()).1;
        let all = text + add;
        assert forall|c: char| #[trigger] text.contains(c) implies all.contains(c) by {
            let i = choose|i: int| 0 <= i < text.len() && text[i] == c;
            assert(all[i] == c);
        }
        if text.contains('\n') {
            let i = choose|i: int| #[trigger] line_end(text, i) && thinking_text(events)
                == text.skip(i + 1);
            assert(line_end(all, i)) by {
                assert forall|j: int| 0 <= j < i implies #[trigger] all[j] != '\n' by {
                    assert(all[j] == text[j]);
                }
            }
            lemma_thinking_push(events, more);
            if add.len() == 0 {
                assert(add =~= Seq::empty());
            }
            assert(all.skip(i + 1) =~= text.skip(i + 1) + add);
        } else {
            assert(thinking_text(events) =~= Seq::empty());
            if add.len() == 0 {
                assert(all =~= text);
                assert(events + more =~= events);
            } else if exists|i: int| line_end(all, i) {
                let i = choose|i: int| line_end(all, i);
                assert(all.contains(all[i]));
                let body = all.skip(i + 1);
                lemma_thinking_push(events, more);
                if body.len() == 0 {
                    assert(body =~= Seq::empty());
                }
                assert(thinking_text(events + more) =~= body);
            } else {
                if all.contains('\n') {
                    lemma_first_line(all);
                }
                assert(events + more =~= events);
            }
        }
        assert forall|k: int| 0 <= k < (events + more).len() implies #[trigger] (events
            + more)[k] is ThinkingDelta by {
            if k < events.len() {
                assert(events[k] is ThinkingDelta);
            }
        }
    }
}

/// A text with a line break in it has a first one.
proof fn lemma_first_line(s: Seq<char>)
    requires
        s.contains('\n'),
    ensures
        exists|i: int| line_end(s, i),
    decreases s.len(),
{
    let head = s.drop_last();
    if head.contains('\n') {
        lemma_first_line(head);
        let i = choose|i: int| line_end(head, i);
        assert(line_end(s, i)) by {
            assert forall|j: int| 0 <= j < i implies #[trigger] s[j] != '\n' by {
                assert(s[j] == head[j]);
            }
        }
    } else {
        let i = choose|i: int| 0 <= i < s.len() && s[i] == '\n';
        assert forall|j: int| 0 <= j < i implies #[trigger] s[j] != '\n' by {
            if s[j] == '\n' {
                assert(head[j] == '\n');
            }
        }
        assert(line_end(s, i));
    }
}

/// A channel's thoughts are exactly what its tokens decode to behind the
/// header line. Whatever came before, nothing else comes of it, and what
/// follows is content.
pub proof fn lemma_channel_is_its_text(p: ParserView, v: VocabView, ids: Seq<u32>)
    requires
        p.apart(),
        forall|k: int| 0 <= k < ids.len() ==> !p.is_control(#[trigger] ids[k]),
        decode_run(v, Seq::empty(), ids).0.contains('\n'),
    ensures
        ({
            let (next, events) = stepped_all(
                p,
                v,
                seq![p.channel_open] + ids + seq![p.channel_close],
            );
            let before = p.segment_ended().1;
            let own = events.skip(before.len() as int);
            &&& next == (ParserView { state: StateView::Content, pending: Seq::empty(), ..p })
            &&& before.is_prefix_of(events)
            &&& behind_first_line(decoded(v, ids), thinking_text(own))
            &&& forall|k: int| 0 <= k < own.len() ==> #[trigger] own[k] is ThinkingDelta
        }),
{
    let opened = ParserView {
        state: StateView::ChannelHeader(Seq::empty()),
        pending: Seq::empty(),
        ..p
    };
    let before = p.segment_ended().1;
    lemma_stepped_one(p, v, p.channel_open);
    assert(p.stepped(v, p.channel_open) == (opened, before));
    lemma_inside_channel(opened, v, ids);
    let (text, held) = decode_run(v, Seq::empty(), ids);
    let (inside, thought) = stepped_all(opened, v, ids);
    lemma_stepped_in_parts(p, v, seq![p.channel_open], ids);
    lemma_stepped_one(inside, v, p.channel_close);
    lemma_stepped_in_parts(p, v, seq![p.channel_open] + ids, seq![p.channel_close]);
    let tail = inside.stepped(v, p.channel_close).1;
    lemma_thinking_push(thought, tail);
    let events = (before + thought) + tail;
    let own = events.skip(before.len() as int);
    assert(own =~= thought + tail);
    assert(before =~= events.subrange(0, before.len() as int));
    let i = choose|i: int| #[trigger] line_end(text, i) && thinking_text(thought) == text.skip(i + 1);
    let all = text + flushed(held);
    assert(line_end(all, i)) by {
        assert forall|j: int| 0 <= j < i implies #[trigger] all[j] != '\n' by {
            assert(all[j] == text[j]);
        }
    }
    assert(all.skip(i + 1) =~= text.skip(i + 1) + flushed(held));
    assert(thinking_text(own) =~= all.skip(i + 1));
    assert forall|k: int| 0 <= k < own.len() implies #[trigger] own[k] is ThinkingDelta by {
        if k < thought.len() {
            assert(thought[k] is ThinkingDelta);
        }
    }
}

/// What control tokens do where no block is open: a stray closing marker does
/// nothing, a request for results and the end of a turn are one event each.
pub proof fn lemma_content_controls(p: ParserView, v: VocabView)
    requires
        p.apart(),
        p.state is Content,
        p.pending.len() == 0,
    ensures
        p.stepped(v, p.tool_call_close) == (p, Seq::<EventView>::empty()),
        p.stepped(v, p.channel_close) == (p, Seq::<EventView>::empty()),
        p.stepped(v, p.tool_response_open) == (p, seq![EventView::AwaitingToolResponse]),
        p.stepped(v, p.eot) == (p, seq![EventView::EndOfTurn]),
        p.stepped(v, p.eos) == (p, seq![EventView::EndOfTurn]),
{
    assert(p.pending =~= Seq::empty());
    assert(Seq::<EventView>::empty().push(EventView::AwaitingToolResponse) =~= seq![
        EventView::AwaitingToolResponse,
    ]);
    assert(Seq::<EventView>::empty().push(EventView::EndOfTurn) =~= seq![EventView::EndOfTurn]);
}

/// The event of a block: a call where the text parses as one, with exactly
/// that name and those arguments; otherwise the text itself, with what is
/// wrong with it.
pub proof fn lemma_call_event(raw: Seq<char>)
    ensures
        match parsed_call(raw) {
            Ok((n, a)) => call_event(raw) == (EventView::ToolCall { name: n, arguments: a }),
            Err(e) => call_event(raw) == (EventView::InvalidToolCall { raw, error: e }),
        },
{
}

/// A stream that breaks off inside a tool call surfaces the text so far.
pub proof fn lemma_broken_call(p: ParserView, v: VocabView, ids: Seq<u32>)
    requires
        p.apart(),
        p.state is Content,
        p.pending.len() == 0,
        forall|k: int| 0 <= k < ids.len() ==> !p.is_control(#[trigger] ids[k]),
        decoded(v, ids).len() > 0,
    ensures
        stepped_all(p, v, seq![p.tool_call_open] + ids).1 == Seq::<EventView>::empty(),
        stepped_all(p, v, seq![p.tool_call_open] + ids).0.finished() == (p, seq![
            EventView::InvalidToolCall {
                raw: decoded(v, ids),
                error: "unterminated tool call"@,
            },
        ]),
{
    assert(p.pending =~= Seq::empty());
    let opened = ParserView { state: StateView::ToolCall(Seq::empty()), ..p };
    lemma_stepped_one(p, v, p.tool_call_open);
    assert(p.stepped(v, p.tool_call_open) == (opened, Seq::<EventView>::empty()));
    lemma_inside_call(opened, v, Seq::empty(), ids);
    let (text, held) = decode_run(v, Seq::empty(), ids);
    assert(Seq::<char>::empty() + text =~= text);
    lemma_stepped_in_parts(p, v, seq![p.tool_call_open], ids);
    let inside = ParserView { state: StateView::ToolCall(text), pending: held, ..p };
    assert(stepped_all(p, v, seq![p.tool_call_open] + ids).0 == inside);
    assert(text + Seq::<char>::empty() =~= text);
    assert(inside.segment_ended().0.state == StateView::ToolCall(decoded(v, ids)));
    assert(Seq::<EventView>::empty() + inside.finished().1 =~= inside.finished().1);
    assert(inside.finished().1 =~= seq![
        EventView::InvalidToolCall { raw: decoded(v, ids), error: "unterminated tool call"@ },
    ]);
}

/// Content that is brought to an end, by the end of the turn, by a call, by a
/// channel, or because the stream ends, has come out whole: its deltas are all
/// that its tokens decode to.
pub proof fn lemma_content_is_its_text(p: ParserView, v: VocabView, ids: Seq<u32>, id: u32)
    requires
        p.apart(),
        p.state is Content,
        p.pending.len() == 0,
        forall|k: int| 0 <= k < ids.len() ==> !p.is_control(#[trigger] ids[k]),
        p.is_control(id) && id != p.tool_call_close,
    ensures
        content_text(stepped_all(p, v, ids.push(id)).1) == decoded(v, ids),
        ({
            let (next, events) = stepped_all(p, v, ids);
            content_text(events + next.finished().1) == decoded(v, ids)
        }),
{
    assert(p.pending =~= Seq::empty());
    lemma_deltas_add_up(p, v, ids);
    let (next, events) = stepped_all(p, v, ids);
    let (text, held) = decode_run(v, Seq::empty(), ids);
    assert(ids.push(id).drop_last() =~= ids);
    let tail = next.segment_ended().1;
    lemma_content_push(events, tail);
    assert(content_text(events + tail) =~= decoded(v, ids));
    let more = next.stepped(v, id).1;
    if more.len() == tail.len() {
        assert(more =~= tail);
    } else {
        assert((events + more).drop_last() =~= events + tail);
        assert(content_text(events + tail) + Seq::<char>::empty() =~= content_text(events + tail));
    }
    assert(next.finished().1 =~= tail);
}

/// How a call is read: behind `call:` the name runs up to the first brace,
/// without the white space around it, and what the braces hold are the
/// arguments; white space may follow, and nothing else.
#[verifier::rlimit(40)]
pub proof fn lemma_call_parse(
    name: Seq<char>,
    args: Seq<char>,
    v: JsonView,
    end: int,
    p: int,
)
    requires
        !name.contains('{'),
        args.len() > 0,
        args[0] == '{',
        parsed_object(args, 0) == Ok::<(JsonView, int), Seq<char>>((v, end)),
        gap(args, end, p),
    ensures
        parsed_call("call:"@ + name + args) == (if trimmed(name).len() == 0 {
            Err::<(Seq<char>, JsonView), Seq<char>>("empty function name"@)
        } else if p < args.len() {
            Err(at_byte("trailing input after arguments at byte "@, args, p))
        } else {
            Ok((trimmed(name), v))
        }),
{
    let raw = "call:"@ + name + args;
    let rest = raw.skip("call:"@.len() as int);
    assert(rest =~= name + args);
    assert(raw.subrange(0, "call:"@.len() as int) =~= "call:"@);
    assert(stands_at(raw, 0, "call:"@));
    let n = name.len() as int;
    assert forall|j: int| 0 <= j < n implies #[trigger] rest[j] != '{' by {
        assert(name.contains(name[j]));
    }
    assert(first_brace(rest, n));
    let brace = choose|i: int| first_brace(rest, i);
    assert(first_brace(rest, brace));
    assert(brace == n);
    assert(rest.take(n) =~= name);
    assert(rest.skip(n) =~= args);
    lemma_past_gap(args, end, p);
}

/// What has no `call:` in front, or no brace behind it, is no call.
pub proof fn lemma_no_call(raw: Seq<char>, name: Seq<char>)
    requires
        !name.contains('{'),
    ensures
        !("call:"@.is_prefix_of(raw)) ==> parsed_call(raw) == Err::<
            (Seq<char>, JsonView),
            Seq<char>,
        >("missing `call:` prefix"@),
        parsed_call("call:"@ + name) == Err::<(Seq<char>, JsonView), Seq<char>>(
            "missing `{` after function name"@,
        ),
{
    let bare = "call:"@ + name;
    let rest = bare.skip("call:"@.len() as int);
    assert(rest =~= name);
    assert(bare.subrange(0, "call:"@.len() as int) =~= "call:"@);
    assert(stands_at(bare, 0, "call:"@));
    assert forall|i: int| !first_brace(rest, i) by {
        if first_brace(rest, i) {
            assert(name.contains(name[i]));
        }
    }
    if stands_at(raw, 0, "call:"@) {
        assert("call:"@.is_prefix_of(raw));
    }
}

/// What each control token does in each state, and what the end of the stream
/// does. Bytes that were withheld are given up first, as a replacement
/// character in the text that they belong to.
#[verifier::rlimit(40)]
pub proof fn lemma_control_moves(p: ParserView, v: VocabView)
    requires
        p.apart(),
    ensures
        ({
            let tail = if p.pending.len() > 0 {
                seq!['\u{FFFD}']
            } else {
                Seq::empty()
            };
            let shown = if p.pending.len() == 0 {
                Seq::<EventView>::empty()
            } else {
                match p.state {
                    StateView::Content => seq![EventView::ContentDelta(tail)],
                    StateView::Channel => seq![EventView::ThinkingDelta(tail)],
                    StateView::ChannelHeader(_) => seq![EventView::ThinkingDelta(tail)],
                    StateView::ToolCall(_) => Seq::empty(),
                }
            };
            let to = |state: StateView| ParserView { state, pending: Seq::empty(), ..p };
            &&& p.stepped(v, p.eot) == (
                to(StateView::Content),
                shown.push(EventView::EndOfTurn),
            )
            &&& p.stepped(v, p.eos) == (
                to(StateView::Content),
                shown.push(EventView::EndOfTurn),
            )
            &&& p.stepped(v, p.tool_call_open) == (to(StateView::ToolCall(Seq::empty())), shown)
            &&& p.stepped(v, p.channel_open) == (to(StateView::ChannelHeader(Seq::empty())), shown)
            &&& p.stepped(v, p.channel_close) == (to(StateView::Content), shown)
            &&& p.stepped(v, p.tool_response_open) == (
                to(
                    match p.state {
                        StateView::ToolCall(raw) => if p.pending.len() > 0 {
                            StateView::ToolCall(raw + tail)
                        } else {
                            p.state
                        },
                        _ => p.state,
                    },
                ),
                shown.push(EventView::AwaitingToolResponse),
            )
            &&& p.stepped(v, p.tool_call_close) == (match p.state {
                StateView::ToolCall(raw) => (
                    to(StateView::Content),
                    seq![call_event(raw + tail)],
                ),
                _ => (ParserView { state: StateView::Content, ..p }, Seq::empty()),
            })
            &&& p.finished() == (
                to(StateView::Content),
                shown + (match p.state {
                    StateView::ToolCall(raw) => if (raw + tail).len() > 0 {
                        seq![
                            EventView::InvalidToolCall {
                                raw: raw + tail,
                                error: "unterminated tool call"@,
                            },
                        ]
                    } else {
                        Seq::empty()
                    },
                    _ => Seq::empty(),
                }),
            )
        }),
{
    if let StateView::ToolCall(raw) = p.state {
        assert(raw + Seq::<char>::empty() =~= raw);
    }
}

} // verus!
