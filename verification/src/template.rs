//! The Gemma 4 chat template: conversations, tool declarations and tool
//! results rendered to prompt text.
//!
//! The quirks of the template (comma placement, `<|"|>` string quoting, brace
//! imbalance when a schema omits `type`) are reproduced, not fixed.
//!
//! Out of scope: multimodal content items, tool responses embedded on
//! assistant messages (tool results arrive as `Tool`-role messages), and
//! content-parts arrays.

use vstd::prelude::*;
use vstd::slice::slice_subrange;
use vstd::string::*;

pub use crate::argument::QUOTE;
pub use crate::schema::ToolDecl;

use crate::argument::{fields_text, push_fields, push_quoted, quoted};
use crate::json::{Json, JsonView};
use crate::schema::{declaration_text, render_declaration, shown_if};
use crate::text::{
    chars_of, find_from, first_at, lemma_trim_margins, lemma_trim_nothing, push_range, same_text,
    stands_at, trim, trimmed,
};

verus! {

#[derive(Debug, Clone, Copy, PartialEq, Eq, Structural)]
pub enum ChatRole {
    System,
    User,
    Assistant,
    /// A tool result; consumed by the preceding assistant message's forward
    /// scan.
    Tool,
}

/// One tool invocation recorded on an assistant message.
#[derive(Debug, Clone)]
pub struct ToolCallMsg {
    /// Correlation id, matched against [`ChatMessage::tool_call_id`].
    pub id: Option<String>,
    pub name: String,
    /// Either a JSON object (rendered in Gemma's argument format) or a
    /// pre-serialized [`Json::Text`] inserted verbatim.
    pub arguments: Json,
}

#[derive(Debug, Clone)]
pub struct ChatMessage {
    pub role: ChatRole,
    pub content: String,
    /// Reasoning text; rendered as a thought channel only on post-last-user
    /// messages that also carry tool calls.
    pub reasoning: Option<String>,
    pub tool_calls: Vec<ToolCallMsg>,
    /// On `Tool` messages: which call this result answers.
    pub tool_call_id: Option<String>,
    /// On `Tool` messages: explicit function name (fallback when no
    /// `tool_call_id` matches).
    pub tool_name: Option<String>,
}

impl ChatMessage {
    /// A message that carries only text.
    pub fn text(role: ChatRole, content: &str) -> (m: Self)
        ensures
            m.role == role,
            m.content@ == content@,
            m.reasoning is None,
            m.tool_calls@.len() == 0,
            m.tool_call_id is None,
            m.tool_name is None,
    {
        ChatMessage {
            role,
            content: content.to_owned(),
            reasoning: None,
            tool_calls: Vec::new(),
            tool_call_id: None,
            tool_name: None,
        }
    }
}

#[derive(Debug, Clone, Copy)]
pub struct PromptOptions {
    pub add_generation_prompt: bool,
    pub enable_thinking: bool,
}

impl Default for PromptOptions {
    fn default() -> (opts: Self)
        ensures
            !opts.add_generation_prompt,
            !opts.enable_thinking,
    {
        PromptOptions { add_generation_prompt: false, enable_thinking: false }
    }
}

/// What is kept of a part: the text before a channel opens.
pub open spec fn before_channel(part: Seq<char>) -> Seq<char> {
    if exists|i: int| first_at(part, 0, "<|channel>"@, i) {
        part.take(choose|i: int| first_at(part, 0, "<|channel>"@, i))
    } else {
        part
    }
}

/// A text without its channels: of each part up to a `<channel|>`, what comes
/// before a channel opens.
pub open spec fn without_channels(text: Seq<char>) -> Seq<char>
    decreases text.len(),
{
    if exists|i: int| first_at(text, 0, "<channel|>"@, i) {
        let i = choose|i: int| first_at(text, 0, "<channel|>"@, i);
        proof {
            reveal_strlit("<channel|>");
        }
        before_channel(text.take(i)) + without_channels(text.skip(i + "<channel|>"@.len()))
    } else {
        before_channel(text)
    }
}

/// A place found in a tail is a place found in the text.
proof fn lemma_first_in_tail(s: Seq<char>, from: int, part: Seq<char>, i: int)
    requires
        0 <= from <= s.len(),
        0 <= i,
    ensures
        stands_at(s.skip(from), i, part) == stands_at(s, from + i, part),
{
    if from + i + part.len() <= s.len() {
        assert(s.skip(from).subrange(i, i + part.len()) =~= s.subrange(
            from + i,
            from + i + part.len(),
        ));
    }
}

proof fn lemma_first_unique(s: Seq<char>, part: Seq<char>, i: int, j: int)
    requires
        first_at(s, 0, part, i),
        first_at(s, 0, part, j),
    ensures
        i == j,
{
    if i < j {
        assert(!stands_at(s, i, part));
    } else if j < i {
        assert(!stands_at(s, j, part));
    }
}

/// The characters `chars[from..to]`.
fn part_of(chars: &Vec<char>, from: usize, to: usize) -> (part: Vec<char>)
    requires
        from <= to <= chars@.len(),
    ensures
        part@ == chars@.subrange(from as int, to as int),
{
    let mut part: Vec<char> = Vec::new();
    let mut i: usize = from;
    while i < to
        invariant
            from <= i <= to <= chars@.len(),
            part@ == chars@.subrange(from as int, i as int),
        decreases to - i,
    {
        part.push(chars[i]);
        i = i + 1;
    }
    part
}

/// Appends what is kept of the part `chars[from..to]`.
fn push_before_channel(chars: &Vec<char>, from: usize, to: usize, out: &mut String)
    requires
        from <= to <= chars@.len(),
    ensures
        final(out)@ == old(out)@ + before_channel(chars@.subrange(from as int, to as int)),
{
    let part = part_of(chars, from, to);
    let open = chars_of("<|channel>");
    match find_from(&part, 0, &open) {
        Some(i) => {
            push_range(out, &part, 0, i);
            proof {
                let k = choose|k: int| first_at(part@, 0, "<|channel>"@, k);
                lemma_first_unique(part@, "<|channel>"@, i as int, k);
                assert(part@.subrange(0, i as int) =~= part@.take(i as int));
            }
        },
        None => {
            push_range(out, &part, 0, part.len());
            proof {
                assert forall|i: int| !first_at(part@, 0, "<|channel>"@, i) by {
                    if 0 <= i {
                        assert(!stands_at(part@, i, "<|channel>"@));
                    }
                }
                assert(part@.subrange(0, part@.len() as int) =~= part@);
            }
        },
    }
}

/// Removes `<|channel>…<channel|>` spans from assistant history, then trims.
pub fn strip_thinking(text: &str) -> (r: String)
    ensures
        r@ == trimmed(without_channels(text@)),
{
    let chars = chars_of(text);
    let close = chars_of("<channel|>");
    let n: usize = chars.len();
    let mut result = String::new();
    let mut from: usize = 0;
    assert(chars@.skip(0) =~= text@);
    assert(result@ + without_channels(text@) =~= without_channels(text@));
    loop
        invariant_except_break
            from <= n,
            n == chars@.len(),
            close@ == "<channel|>"@,
            result@ + without_channels(chars@.skip(from as int)) == without_channels(text@),
        ensures
            result@ == without_channels(text@),
        decreases n - from,
    {
        let ghost rest = chars@.skip(from as int);
        let ghost had = result@;
        match find_from(&chars, from, &close) {
            Some(at) => {
                push_before_channel(&chars, from, at, &mut result);
                proof {
                    reveal_strlit("<channel|>");
                    let i = at - from;
                    assert(first_at(rest, 0, close@, i)) by {
                        lemma_first_in_tail(chars@, from as int, close@, i);
                        assert forall|j: int| 0 <= j < i implies !#[trigger] stands_at(
                            rest,
                            j,
                            close@,
                        ) by {
                            lemma_first_in_tail(chars@, from as int, close@, j);
                            assert(!stands_at(chars@, from + j, close@));
                        }
                    }
                    let k = choose|k: int| first_at(rest, 0, "<channel|>"@, k);
                    lemma_first_unique(rest, "<channel|>"@, i, k);
                    assert(chars@.subrange(from as int, at as int) =~= rest.take(i));
                    assert(rest.skip(i + close@.len()) =~= chars@.skip(at + close@.len()));
                    assert(had + before_channel(rest.take(i)) + without_channels(
                        rest.skip(i + close@.len()),
                    ) =~= had + (before_channel(rest.take(i)) + without_channels(
                        rest.skip(i + close@.len()),
                    )));
                }
                from = at + close.len();
            },
            None => {
                push_before_channel(&chars, from, n, &mut result);
                proof {
                    assert forall|i: int| !first_at(rest, 0, "<channel|>"@, i) by {
                        if 0 <= i {
                            lemma_first_in_tail(chars@, from as int, close@, i);
                            assert(!stands_at(chars@, from + i, close@));
                        }
                    }
                    assert(chars@.subrange(from as int, n as int) =~= rest);
                }
                break;
            },
        }
    }
    trim(result.as_str())
}

/// History that holds no channel marks is only trimmed.
pub proof fn lemma_strip_plain(text: Seq<char>)
    requires
        forall|i: int| !#[trigger] stands_at(text, i, "<|channel>"@),
        forall|i: int| !#[trigger] stands_at(text, i, "<channel|>"@),
    ensures
        without_channels(text) == text,
{
    assert forall|i: int| !first_at(text, 0, "<|channel>"@, i) by {
        assert(!stands_at(text, i, "<|channel>"@));
    }
    assert forall|i: int| !first_at(text, 0, "<channel|>"@, i) by {
        assert(!stands_at(text, i, "<channel|>"@));
    }
}

/// The arguments of a call between its braces: an object in argument syntax,
/// a string as it is.
pub open spec fn call_arguments(arguments: JsonView) -> Seq<char> {
    match arguments {
        JsonView::Object(entries) => fields_text(entries, false),
        JsonView::Text(raw) => raw,
        _ => Seq::empty(),
    }
}

/// One tool call.
pub open spec fn call_text(call: ToolCallMsg) -> Seq<char> {
    "<|tool_call>call:"@ + call.name@ + "{"@ + call_arguments(call.arguments@) + "}<tool_call|>"@
}

/// The first `n` tool calls of a message.
pub open spec fn calls_text(calls: Seq<ToolCallMsg>, n: nat) -> Seq<char>
    decreases n,
{
    if n == 0 {
        Seq::empty()
    } else {
        calls_text(calls, (n - 1) as nat) + call_text(calls[n - 1])
    }
}

/// `k` is the first call with the id `id`.
pub open spec fn call_with_id(calls: Seq<ToolCallMsg>, id: Seq<char>, k: int) -> bool {
    &&& 0 <= k < calls.len()
    &&& calls[k].id matches Some(s) && s@ == id
    &&& forall|j: int| 0 <= j < k ==> !(#[trigger] calls[j].id matches Some(s) && s@ == id)
}

/// The function a tool result belongs to: that of the call it answers, or
/// else the one it names.
pub open spec fn response_name(message: ChatMessage, follow: ChatMessage) -> Seq<char> {
    let named = match follow.tool_name {
        Some(name) => name@,
        None => "unknown"@,
    };
    match follow.tool_call_id {
        Some(id) => if exists|k: int| call_with_id(message.tool_calls@, id@, k) {
            message.tool_calls@[choose|k: int|
                call_with_id(message.tool_calls@, id@, k)].name@
        } else {
            named
        },
        None => named,
    }
}

/// One tool result.
pub open spec fn response_text(message: ChatMessage, follow: ChatMessage) -> Seq<char> {
    "<|tool_response>response:"@ + response_name(message, follow) + "{value:"@ + quoted(
        follow.content@,
    ) + "}<tool_response|>"@
}

/// The results in the tool messages of `msgs` from `from` up to `to`.
pub open spec fn responses_text(message: ChatMessage, msgs: Seq<ChatMessage>, from: int, to: int)
    -> Seq<char>
    decreases to - from,
{
    if to <= from {
        Seq::empty()
    } else {
        responses_text(message, msgs, from, to - 1) + response_text(message, msgs[to - 1])
    }
}

/// The end of the run of tool messages that starts at `from`.
pub open spec fn tools_end(msgs: Seq<ChatMessage>, from: int) -> int
    decreases msgs.len() - from,
{
    if 0 <= from < msgs.len() && msgs[from].role == ChatRole::Tool {
        tools_end(msgs, from + 1)
    } else {
        from
    }
}

/// The role of the last of the first `n` messages that is no tool result.
pub open spec fn last_speaker(msgs: Seq<ChatMessage>, n: int) -> Option<ChatRole>
    decreases n,
{
    if n <= 0 {
        None
    } else if msgs[n - 1].role != ChatRole::Tool {
        Some(msgs[n - 1].role)
    } else {
        last_speaker(msgs, n - 1)
    }
}

/// Whether the last of the first `n` messages that is no tool result carries
/// tool calls.
pub open spec fn ends_in_calls(msgs: Seq<ChatMessage>, n: int) -> bool
    decreases n,
{
    if n <= 0 {
        false
    } else if msgs[n - 1].role != ChatRole::Tool {
        msgs[n - 1].tool_calls@.len() > 0
    } else {
        ends_in_calls(msgs, n - 1)
    }
}

/// Whether a user message stands at or after `from`.
pub open spec fn user_from(msgs: Seq<ChatMessage>, from: int) -> bool {
    exists|k: int| from <= k < msgs.len() && (#[trigger] msgs[k]).role == ChatRole::User
}

/// How a role opens its turn.
pub open spec fn role_name(role: ChatRole) -> Seq<char> {
    match role {
        ChatRole::Assistant => "model"@,
        ChatRole::User => "user"@,
        ChatRole::System => "system"@,
        ChatRole::Tool => ""@,
    }
}

/// The turn marker of message `i`; an assistant message after an assistant
/// message continues its turn.
pub open spec fn turn_opening(msgs: Seq<ChatMessage>, i: int) -> Seq<char> {
    shown_if(
        !(msgs[i].role == ChatRole::Assistant && last_speaker(msgs, i) == Some(
            ChatRole::Assistant,
        )),
        "<|turn>"@ + role_name(msgs[i].role) + "\n"@,
    )
}

/// The thought channel of message `i`: its reasoning, where it carries tool
/// calls and no user message follows.
pub open spec fn turn_thought(msgs: Seq<ChatMessage>, i: int) -> Seq<char> {
    match msgs[i].reasoning {
        Some(reasoning) => shown_if(
            !user_from(msgs, i) && msgs[i].tool_calls@.len() > 0,
            "<|channel>thought\n"@ + reasoning@ + "\n<channel|>"@,
        ),
        None => Seq::empty(),
    }
}

/// Whether tool results follow the calls of message `i`.
pub open spec fn answered(msgs: Seq<ChatMessage>, i: int) -> bool {
    msgs[i].tool_calls@.len() > 0 && i + 1 < msgs.len() && msgs[i + 1].role == ChatRole::Tool
}

/// The tool results that follow the calls of message `i`.
pub open spec fn turn_responses(msgs: Seq<ChatMessage>, i: int) -> Seq<char> {
    shown_if(
        msgs[i].tool_calls@.len() > 0,
        responses_text(msgs[i], msgs, i + 1, tools_end(msgs, i + 1)),
    )
}

/// The text of a message.
pub open spec fn turn_content(m: ChatMessage) -> Seq<char> {
    if m.role == ChatRole::Assistant {
        trimmed(without_channels(m.content@))
    } else {
        trimmed(m.content@)
    }
}

/// How message `i` ends: calls without results leave the turn open at the
/// response marker; results without text leave it open; anything else closes
/// it.
pub open spec fn turn_ending(msgs: Seq<ChatMessage>, i: int) -> Seq<char> {
    if msgs[i].tool_calls@.len() > 0 && !answered(msgs, i) {
        "<|tool_response>"@
    } else {
        shown_if(
            !answered(msgs, i) || trimmed(turn_content(msgs[i])).len() > 0,
            "<turn|>\n"@,
        )
    }
}

/// Message `i` as it is rendered.
pub open spec fn turn_text(msgs: Seq<ChatMessage>, i: int) -> Seq<char> {
    shown_if(
        msgs[i].role != ChatRole::Tool,
        turn_opening(msgs, i) + turn_thought(msgs, i) + calls_text(
            msgs[i].tool_calls@,
            msgs[i].tool_calls@.len(),
        ) + turn_responses(msgs, i) + turn_content(msgs[i]) + turn_ending(msgs, i),
    )
}

/// The first `n` messages as they are rendered.
pub open spec fn turns_text(msgs: Seq<ChatMessage>, n: nat) -> Seq<char>
    decreases n,
{
    if n == 0 {
        Seq::empty()
    } else {
        turns_text(msgs, (n - 1) as nat) + turn_text(msgs, n - 1)
    }
}

/// The first `n` tool declarations.
pub open spec fn tools_text(tools: Seq<ToolDecl>, n: nat) -> Seq<char>
    decreases n,
{
    if n == 0 {
        Seq::empty()
    } else {
        tools_text(tools, (n - 1) as nat) + ("<|tool>"@ + trimmed(declaration_text(tools[n - 1]))
            + "<tool|>"@)
    }
}

/// Whether the conversation opens with a system message.
pub open spec fn opens_with_system(messages: Seq<ChatMessage>) -> bool {
    messages.len() > 0 && messages[0].role == ChatRole::System
}

/// The system turn: the thinking switch, the system message and the tools.
pub open spec fn system_text(
    messages: Seq<ChatMessage>,
    tools: Seq<ToolDecl>,
    opts: PromptOptions,
) -> Seq<char> {
    shown_if(
        opts.enable_thinking || tools.len() > 0 || opens_with_system(messages),
        "<|turn>system\n"@ + shown_if(opts.enable_thinking, "<|think|>\n"@) + shown_if(
            opens_with_system(messages),
            trimmed(messages[0].content@),
        ) + tools_text(tools, tools.len()) + "<turn|>\n"@,
    )
}

/// The messages behind the system turn.
pub open spec fn spoken(messages: Seq<ChatMessage>) -> Seq<ChatMessage> {
    if opens_with_system(messages) {
        messages.skip(1)
    } else {
        messages
    }
}

/// The opening of the turn to be generated; without thinking, with an empty
/// thought channel already in it.
pub open spec fn generation_text(msgs: Seq<ChatMessage>, opts: PromptOptions) -> Seq<char> {
    shown_if(
        opts.add_generation_prompt && !ends_in_calls(msgs, msgs.len() as int),
        "<|turn>model\n"@ + shown_if(
            !opts.enable_thinking,
            "<|channel>thought\n<channel|>"@,
        ),
    )
}

/// The whole prompt.
pub open spec fn prompt_text(
    messages: Seq<ChatMessage>,
    tools: Seq<ToolDecl>,
    opts: PromptOptions,
) -> Seq<char> {
    let msgs = spoken(messages);
    "<bos>"@ + system_text(messages, tools, opts) + turns_text(msgs, msgs.len())
        + generation_text(msgs, opts)
}

/// Appends the tool calls of a message.
fn push_calls(calls: &Vec<ToolCallMsg>, out: &mut String)
    ensures
        final(out)@ == old(out)@ + calls_text(calls@, calls@.len()),
{
    let ghost start = out@;
    let mut i: usize = 0;
    assert(start + calls_text(calls@, 0) =~= start);
    while i < calls.len()
        invariant
            i <= calls@.len(),
            out@ == start + calls_text(calls@, i as nat),
        decreases calls@.len() - i,
    {
        let call = &calls[i];
        let ghost had = out@;
        out.append("<|tool_call>call:");
        out.append(call.name.as_str());
        out.append("{");
        match &call.arguments {
            Json::Object(entries) => push_fields(entries, false, out),
            Json::Text(raw) => out.append(raw.as_str()),
            _ => {},
        }
        out.append("}<tool_call|>");
        assert(out@ =~= had + call_text(calls@[i as int]));
        assert(start + calls_text(calls@, i as nat) + call_text(calls@[i as int]) =~= start + (
        calls_text(calls@, i as nat) + call_text(calls@[i as int])));
        i = i + 1;
    }
}

/// The first call with the id `id`.
fn find_call(calls: &Vec<ToolCallMsg>, id: &str) -> (r: Option<usize>)
    ensures
        match r {
            Some(k) => call_with_id(calls@, id@, k as int),
            None => forall|k: int| !call_with_id(calls@, id@, k),
        },
{
    let mut k: usize = 0;
    while k < calls.len()
        invariant
            k <= calls@.len(),
            forall|j: int|
                0 <= j < k ==> !(#[trigger] calls@[j].id matches Some(s) && s@ == id@),
        decreases calls@.len() - k,
    {
        if let Some(s) = &calls[k].id {
            if same_text(s.as_str(), id) {
                return Some(k);
            }
        }
        k = k + 1;
    }
    None
}

/// Appends one tool result.
fn push_response(message: &ChatMessage, follow: &ChatMessage, out: &mut String)
    ensures
        final(out)@ == old(out)@ + response_text(*message, *follow),
{
    let ghost start = out@;
    out.append("<|tool_response>response:");
    let mut answers: Option<usize> = None;
    if let Some(id) = &follow.tool_call_id {
        answers = find_call(&message.tool_calls, id.as_str());
        proof {
            if answers is Some {
                let k = choose|k: int| call_with_id(message.tool_calls@, id@, k);
                assert(call_with_id(message.tool_calls@, id@, k));
                assert(k == answers->0) by {
                    let a = answers->0 as int;
                    if a < k {
                        assert(!(message.tool_calls@[a].id matches Some(s) && s@ == id@));
                    } else if k < a {
                        assert(!(message.tool_calls@[k].id matches Some(s) && s@ == id@));
                    }
                }
            }
        }
    }
    match answers {
        Some(k) => out.append(message.tool_calls[k].name.as_str()),
        None => match &follow.tool_name {
            Some(name) => out.append(name.as_str()),
            None => out.append("unknown"),
        },
    }
    assert(out@ =~= start + "<|tool_response>response:"@ + response_name(*message, *follow));
    out.append("{value:");
    push_quoted(out, follow.content.as_str());
    out.append("}<tool_response|>");
    assert(out@ =~= start + response_text(*message, *follow));
}

/// Appends the results in the tool messages that follow message `i`, and says
/// whether there are any.
fn push_responses(msgs: &[ChatMessage], i: usize, out: &mut String) -> (any: bool)
    requires
        i < msgs@.len(),
    ensures
        final(out)@ == old(out)@ + responses_text(
            msgs@[i as int],
            msgs@,
            i + 1,
            tools_end(msgs@, i + 1),
        ),
        any == (i + 1 < msgs@.len() && msgs@[i + 1].role == ChatRole::Tool),
{
    let ghost start = out@;
    let n: usize = msgs.len();
    let mut k: usize = i + 1;
    assert(start + responses_text(msgs@[i as int], msgs@, i + 1, i + 1) =~= start);
    while k < n && msgs[k].role == ChatRole::Tool
        invariant
            i < k <= n,
            n == msgs@.len(),
            tools_end(msgs@, k as int) == tools_end(msgs@, i + 1),
            k > i + 1 ==> msgs@[i + 1].role == ChatRole::Tool,
            out@ == start + responses_text(msgs@[i as int], msgs@, i + 1, k as int),
        decreases n - k,
    {
        push_response(&msgs[i], &msgs[k], out);
        let ghost more = response_text(msgs@[i as int], msgs@[k as int]);
        assert(start + responses_text(msgs@[i as int], msgs@, i + 1, k as int) + more =~= start + (
        responses_text(msgs@[i as int], msgs@, i + 1, k as int) + more));
        k = k + 1;
    }
    k > i + 1
}

/// The role of the last of the first `n` messages that is no tool result.
fn speaker_before(msgs: &[ChatMessage], n: usize) -> (r: Option<ChatRole>)
    requires
        n <= msgs@.len(),
    ensures
        r == last_speaker(msgs@, n as int),
{
    let mut k: usize = n;
    while k > 0
        invariant
            k <= n <= msgs@.len(),
            last_speaker(msgs@, k as int) == last_speaker(msgs@, n as int),
        decreases k,
    {
        if msgs[k - 1].role != ChatRole::Tool {
            return Some(msgs[k - 1].role);
        }
        k = k - 1;
    }
    None
}

/// Whether a user message stands at or after `from`.
fn has_user_from(msgs: &[ChatMessage], from: usize) -> (r: bool)
    requires
        from <= msgs@.len(),
    ensures
        r == user_from(msgs@, from as int),
{
    let mut k: usize = from;
    while k < msgs.len()
        invariant
            from <= k <= msgs@.len(),
            forall|j: int| from <= j < k ==> (#[trigger] msgs@[j]).role != ChatRole::User,
        decreases msgs@.len() - k,
    {
        if msgs[k].role == ChatRole::User {
            return true;
        }
        k = k + 1;
    }
    false
}

/// Appends message `i`, which is no tool result.
fn push_turn(msgs: &[ChatMessage], i: usize, out: &mut String)
    requires
        i < msgs@.len(),
        msgs@[i as int].role != ChatRole::Tool,
    ensures
        final(out)@ == old(out)@ + turn_text(msgs@, i as int),
{
    let ghost start = out@;
    let message = &msgs[i];
    let has_calls: bool = message.tool_calls.len() > 0;
    // Consecutive assistant messages continue one model turn.
    let continues: bool = message.role == ChatRole::Assistant && match speaker_before(msgs, i) {
        Some(role) => role == ChatRole::Assistant,
        None => false,
    };
    if !continues {
        out.append("<|turn>");
        out.append(
            match message.role {
                ChatRole::Assistant => "model",
                ChatRole::User => "user",
                ChatRole::System => "system",
                ChatRole::Tool => "",
            },
        );
        out.append("\n");
    }
    assert(out@ =~= start + turn_opening(msgs@, i as int));
    let ghost at1 = out@;
    if let Some(reasoning) = &message.reasoning {
        if has_calls && !has_user_from(msgs, i) {
            out.append("<|channel>thought\n");
            out.append(reasoning.as_str());
            out.append("\n<channel|>");
        }
    }
    assert(out@ =~= at1 + turn_thought(msgs@, i as int));
    push_calls(&message.tool_calls, out);
    let ghost at2 = out@;
    let mut responded: bool = false;
    if has_calls {
        responded = push_responses(msgs, i, out);
    }
    assert(out@ =~= at2 + turn_responses(msgs@, i as int));
    assert(responded == answered(msgs@, i as int));
    let captured: String = if message.role == ChatRole::Assistant {
        strip_thinking(message.content.as_str())
    } else {
        trim(message.content.as_str())
    };
    out.append(captured.as_str());
    let ghost at3 = out@;
    let shown = trim(captured.as_str());
    let has_content: bool = !same_text(shown.as_str(), "");
    proof {
        reveal_strlit("");
        assert(shown@.len() == 0 ==> shown@ =~= ""@);
    }
    if has_calls && !responded {
        // Calls without results yet: leave the turn open at the response
        // marker so generation resumes after tools run.
        out.append("<|tool_response>");
    } else if !responded || has_content {
        out.append("<turn|>\n");
    }
    assert(out@ =~= at3 + turn_ending(msgs@, i as int));
    proof {
        lemma_turn_sum(
            start,
            turn_opening(msgs@, i as int),
            turn_thought(msgs@, i as int),
            calls_text(message.tool_calls@, message.tool_calls@.len()),
            turn_responses(msgs@, i as int),
            turn_content(*message),
            turn_ending(msgs@, i as int),
        );
    }
}

proof fn lemma_turn_sum(
    s: Seq<char>,
    a: Seq<char>,
    b: Seq<char>,
    c: Seq<char>,
    d: Seq<char>,
    e: Seq<char>,
    f: Seq<char>,
)
    ensures
        s + a + b + c + d + e + f == s + (a + b + c + d + e + f),
{
    assert(s + a + b + c + d + e + f =~= s + (a + b + c + d + e + f));
}

/// Appends the system turn.
fn push_system(messages: &[ChatMessage], tools: &[ToolDecl], opts: PromptOptions, out: &mut String)
    ensures
        final(out)@ == old(out)@ + system_text(messages@, tools@, opts),
{
    let ghost start = out@;
    let system: bool = messages.len() > 0 && messages[0].role == ChatRole::System;
    if !(opts.enable_thinking || tools.len() > 0 || system) {
        assert(start + Seq::<char>::empty() =~= start);
        return;
    }
    out.append("<|turn>system\n");
    if opts.enable_thinking {
        out.append("<|think|>\n");
    }
    let ghost think = shown_if(opts.enable_thinking, "<|think|>\n"@);
    assert(out@ =~= start + "<|turn>system\n"@ + think);
    let ghost at1 = out@;
    let ghost said = shown_if(opens_with_system(messages@), trimmed(messages@[0].content@));
    if system {
        out.append(trim(messages[0].content.as_str()).as_str());
    }
    assert(out@ =~= at1 + said);
    let ghost at2 = out@;
    let mut k: usize = 0;
    assert(at2 + tools_text(tools@, 0) =~= at2);
    while k < tools.len()
        invariant
            k <= tools@.len(),
            out@ == at2 + tools_text(tools@, k as nat),
        decreases tools@.len() - k,
    {
        out.append("<|tool>");
        out.append(trim(render_declaration(&tools[k]).as_str()).as_str());
        out.append("<tool|>");
        let ghost one = "<|tool>"@ + trimmed(declaration_text(tools@[k as int])) + "<tool|>"@;
        assert(out@ =~= at2 + (tools_text(tools@, k as nat) + one));
        k = k + 1;
    }
    out.append("<turn|>\n");
    assert(out@ =~= start + ("<|turn>system\n"@ + think + said + tools_text(tools@, tools@.len())
        + "<turn|>\n"@));
}

/// Whether the last message that is no tool result carries tool calls.
fn calls_last(msgs: &[ChatMessage]) -> (r: bool)
    ensures
        r == ends_in_calls(msgs@, msgs@.len() as int),
{
    let n: usize = msgs.len();
    let mut k: usize = n;
    while k > 0
        invariant
            k <= n == msgs@.len(),
            ends_in_calls(msgs@, k as int) == ends_in_calls(msgs@, n as int),
        decreases k,
    {
        if msgs[k - 1].role != ChatRole::Tool {
            return msgs[k - 1].tool_calls.len() > 0;
        }
        k = k - 1;
    }
    false
}

/// Renders the full conversation prefix.
pub fn render_prompt(messages: &[ChatMessage], tools: &[ToolDecl], opts: PromptOptions) -> (r:
    String)
    ensures
        r@ == prompt_text(messages@, tools@, opts),
{
    let mut out = "<bos>".to_owned();
    push_system(messages, tools, opts, &mut out);
    let msgs: &[ChatMessage] = if messages.len() > 0 && messages[0].role == ChatRole::System {
        slice_subrange(messages, 1, messages.len())
    } else {
        messages
    };
    assert(msgs@ =~= spoken(messages@));
    let ghost head = out@;
    let mut i: usize = 0;
    assert(head + turns_text(msgs@, 0) =~= head);
    while i < msgs.len()
        invariant
            i <= msgs@.len(),
            out@ == head + turns_text(msgs@, i as nat),
        decreases msgs@.len() - i,
    {
        let ghost had = out@;
        if msgs[i].role != ChatRole::Tool {
            push_turn(msgs, i, &mut out);
        }
        assert(out@ =~= had + turn_text(msgs@, i as int));
        assert(head + turns_text(msgs@, i as nat) + turn_text(msgs@, i as int) =~= head + (
        turns_text(msgs@, i as nat) + turn_text(msgs@, i as int)));
        i = i + 1;
    }
    let ghost body = out@;
    if opts.add_generation_prompt && !calls_last(msgs) {
        out.append("<|turn>model\n");
        if !opts.enable_thinking {
            // Pre-filled empty thought channel steers the model straight to
            // the answer.
            out.append("<|channel>thought\n<channel|>");
        }
    }
    assert(out@ =~= body + generation_text(msgs@, opts));
    out
}

/// No message carries tool calls.
pub open spec fn callless(msgs: Seq<ChatMessage>) -> bool {
    forall|i: int| 0 <= i < msgs.len() ==> (#[trigger] msgs[i]).tool_calls@.len() == 0
}

proof fn lemma_speaker_stays(msgs: Seq<ChatMessage>, more: Seq<ChatMessage>, n: int)
    requires
        n <= msgs.len(),
    ensures
        last_speaker(msgs + more, n) == last_speaker(msgs, n),
    decreases n,
{
    if n > 0 {
        assert((msgs + more)[n - 1] == msgs[n - 1]);
        lemma_speaker_stays(msgs, more, n - 1);
    }
}

proof fn lemma_turns_stay(msgs: Seq<ChatMessage>, more: Seq<ChatMessage>, n: nat)
    requires
        n <= msgs.len(),
        callless(msgs),
    ensures
        turns_text(msgs + more, n) == turns_text(msgs, n),
    decreases n,
{
    if n > 0 {
        let i = n - 1;
        lemma_turns_stay(msgs, more, i as nat);
        lemma_speaker_stays(msgs, more, i);
        assert((msgs + more)[i] == msgs[i]);
        assert(msgs[i].tool_calls@.len() == 0);
    }
}

proof fn lemma_turns_split(msgs: Seq<ChatMessage>, n: nat, m: nat)
    requires
        n <= m,
    ensures
        turns_text(msgs, n).is_prefix_of(turns_text(msgs, m)),
    decreases m,
{
    if n < m {
        lemma_turns_split(msgs, n, (m - 1) as nat);
    }
}

/// What has been rendered of a conversation without tool calls stays as it is
/// when the conversation goes on.
pub proof fn lemma_prompt_extends(
    messages: Seq<ChatMessage>,
    more: Seq<ChatMessage>,
    tools: Seq<ToolDecl>,
    enable_thinking: bool,
)
    requires
        messages.len() > 0,
        callless(messages),
    ensures
        ({
            let opts = PromptOptions { add_generation_prompt: false, enable_thinking };
            prompt_text(messages, tools, opts).is_prefix_of(
                prompt_text(messages + more, tools, opts),
            )
        }),
{
    let opts = PromptOptions { add_generation_prompt: false, enable_thinking };
    let msgs = spoken(messages);
    let all = spoken(messages + more);
    assert((messages + more)[0] == messages[0]);
    assert(all =~= msgs + more);
    assert(callless(msgs)) by {
        assert forall|i: int| 0 <= i < msgs.len() implies (#[trigger] msgs[i]).tool_calls@.len()
            == 0 by {
            if opens_with_system(messages) {
                assert(msgs[i] == messages[i + 1]);
            } else {
                assert(msgs[i] == messages[i]);
            }
        }
    }
    lemma_turns_stay(msgs, more, msgs.len());
    lemma_turns_split(all, msgs.len(), all.len());
    let head = "<bos>"@ + system_text(messages, tools, opts);
    let short = prompt_text(messages, tools, opts);
    let long = prompt_text(messages + more, tools, opts);
    assert(short =~= head + turns_text(msgs, msgs.len()));
    assert(long =~= head + turns_text(all, all.len()));
}

/// Asking for an answer only adds the opening of the model's turn, and adds
/// nothing where the last message waits for tool results or has them.
pub proof fn lemma_generation_only_adds(
    messages: Seq<ChatMessage>,
    tools: Seq<ToolDecl>,
    enable_thinking: bool,
)
    ensures
        ({
            let off = PromptOptions { add_generation_prompt: false, enable_thinking };
            let on = PromptOptions { add_generation_prompt: true, enable_thinking };
            prompt_text(messages, tools, on) == prompt_text(messages, tools, off)
                + generation_text(spoken(messages), on)
        }),
        ends_in_calls(spoken(messages), spoken(messages).len() as int) ==> ({
            let on = PromptOptions { add_generation_prompt: true, enable_thinking };
            generation_text(spoken(messages), on) == Seq::<char>::empty()
        }),
{
    let off = PromptOptions { add_generation_prompt: false, enable_thinking };
    let on = PromptOptions { add_generation_prompt: true, enable_thinking };
    assert(prompt_text(messages, tools, on) =~= prompt_text(messages, tools, off)
        + generation_text(spoken(messages), on));
}

/// A channel goes with its marks: the text around it stays, and what is behind
/// it is stripped in the same way.
pub proof fn lemma_strip_span(a: Seq<char>, b: Seq<char>, c: Seq<char>)
    requires
        ({
            let part = a + "<|channel>"@ + b;
            &&& forall|i: int| 0 <= i < a.len() ==> !#[trigger] stands_at(part, i, "<|channel>"@)
            &&& forall|i: int|
                0 <= i < part.len() ==> !#[trigger] stands_at(
                    part + "<channel|>"@ + c,
                    i,
                    "<channel|>"@,
                )
        }),
    ensures
        without_channels(a + "<|channel>"@ + b + "<channel|>"@ + c) == a + without_channels(c),
{
    let part = a + "<|channel>"@ + b;
    let n = part.len() as int;
    let text = part + "<channel|>"@ + c;
    assert(text.subrange(n, n + "<channel|>"@.len()) =~= "<channel|>"@);
    assert(first_at(text, 0, "<channel|>"@, n));
    let k = choose|k: int| first_at(text, 0, "<channel|>"@, k);
    lemma_first_unique(text, "<channel|>"@, n, k);
    assert(text.take(n) =~= part);
    assert(text.skip(n + "<channel|>"@.len()) =~= c);
    lemma_before_open(a, b);
}

/// A mark that closes a channel which was never opened goes alone: the text in
/// front of it stays, and what is behind it is stripped in the same way.
pub proof fn lemma_strip_stray(a: Seq<char>, c: Seq<char>)
    requires
        forall|i: int| !#[trigger] stands_at(a, i, "<|channel>"@),
        forall|i: int|
            0 <= i < a.len() ==> !#[trigger] stands_at(a + "<channel|>"@ + c, i, "<channel|>"@),
    ensures
        without_channels(a + "<channel|>"@ + c) == a + without_channels(c),
{
    let n = a.len() as int;
    let text = a + "<channel|>"@ + c;
    assert(text.subrange(n, n + "<channel|>"@.len()) =~= "<channel|>"@);
    assert(first_at(text, 0, "<channel|>"@, n));
    let k = choose|k: int| first_at(text, 0, "<channel|>"@, k);
    lemma_first_unique(text, "<channel|>"@, n, k);
    assert(text.take(n) =~= a);
    assert(text.skip(n + "<channel|>"@.len()) =~= c);
    assert forall|i: int| !first_at(a, 0, "<|channel>"@, i) by {
        assert(!stands_at(a, i, "<|channel>"@));
    }
}

proof fn lemma_before_open(a: Seq<char>, b: Seq<char>)
    requires
        forall|i: int|
            0 <= i < a.len() ==> !#[trigger] stands_at(
                a + "<|channel>"@ + b,
                i,
                "<|channel>"@,
            ),
    ensures
        before_channel(a + "<|channel>"@ + b) == a,
{
    let part = a + "<|channel>"@ + b;
    let m = a.len() as int;
    assert(part.subrange(m, m + "<|channel>"@.len()) =~= "<|channel>"@);
    assert(first_at(part, 0, "<|channel>"@, m));
    let j = choose|j: int| first_at(part, 0, "<|channel>"@, j);
    lemma_first_unique(part, "<|channel>"@, m, j);
    assert(part.take(m) =~= a);
}

/// A channel that is never closed goes to the end of the text.
pub proof fn lemma_strip_open(a: Seq<char>, b: Seq<char>)
    requires
        ({
            let part = a + "<|channel>"@ + b;
            &&& forall|i: int| 0 <= i < a.len() ==> !#[trigger] stands_at(part, i, "<|channel>"@)
            &&& forall|i: int| !#[trigger] stands_at(part, i, "<channel|>"@)
        }),
    ensures
        without_channels(a + "<|channel>"@ + b) == a,
{
    let part = a + "<|channel>"@ + b;
    assert forall|i: int| !first_at(part, 0, "<channel|>"@, i) by {
        assert(!stands_at(part, i, "<channel|>"@));
    }
    lemma_before_open(a, b);
}

proof fn lemma_calls_prefix(a: Seq<ToolCallMsg>, b: Seq<ToolCallMsg>, n: nat)
    requires
        n <= a.len(),
        n <= b.len(),
        forall|i: int| 0 <= i < n ==> a[i] == b[i],
    ensures
        calls_text(a, n) == calls_text(b, n),
    decreases n,
{
    if n > 0 {
        lemma_calls_prefix(a, b, (n - 1) as nat);
    }
}

/// Calls are written one after the other: a single call between its markers,
/// with its arguments between braces, and lists of calls joined.
pub proof fn lemma_calls_written(a: Seq<ToolCallMsg>, b: Seq<ToolCallMsg>, c: ToolCallMsg)
    ensures
        calls_text(Seq::empty(), 0) == Seq::<char>::empty(),
        calls_text(a + b, (a + b).len()) == calls_text(a, a.len()) + calls_text(b, b.len()),
        c.arguments@ matches JsonView::Object(entries) ==> calls_text(seq![c], 1)
            == "<|tool_call>call:"@ + c.name@ + "{"@ + fields_text(entries, false)
            + "}<tool_call|>"@,
        c.arguments@ matches JsonView::Text(raw) ==> calls_text(seq![c], 1) == "<|tool_call>call:"@
            + c.name@ + "{"@ + raw + "}<tool_call|>"@,
        !(c.arguments@ is Object) && !(c.arguments@ is Text) ==> calls_text(seq![c], 1)
            == "<|tool_call>call:"@ + c.name@ + "{"@ + "}<tool_call|>"@,
    decreases b.len(),
{
    reveal_with_fuel(calls_text, 2);
    let one = "<|tool_call>call:"@ + c.name@ + "{"@;
    assert(one + Seq::<char>::empty() =~= one);
    assert(calls_text(seq![c], 1) =~= call_text(c));
    if b.len() == 0 {
        assert(a + b =~= a);
        assert(calls_text(a, a.len()) + calls_text(b, 0) =~= calls_text(a, a.len()));
    } else {
        let head = b.drop_last();
        lemma_calls_written(a, head, c);
        let n = (a + b).len();
        lemma_calls_prefix(a + b, a + head, (n - 1) as nat);
        lemma_calls_prefix(b, head, (b.len() - 1) as nat);
        assert((a + b)[n - 1] == b.last());
        assert((calls_text(a, a.len()) + calls_text(head, head.len())) + call_text(b.last())
            =~= calls_text(a, a.len()) + (calls_text(head, head.len()) + call_text(b.last())));
    }
}

/// Whose result a tool message holds: the function of the first call with the
/// id that it answers; without such a call the one that it names, or else
/// none that is known.
pub proof fn lemma_response_name(message: ChatMessage, follow: ChatMessage, k: int)
    ensures
        ({
            let calls = message.tool_calls@;
            let same = |j: int|
                (calls[j].id matches Some(s) && follow.tool_call_id matches Some(t) && s@ == t@);
            &&& 0 <= k < calls.len() && same(k) && (forall|j: int| 0 <= j < k ==> !(#[trigger] same(
                j,
            ))) ==> response_name(message, follow) == calls[k].name@
            &&& (forall|j: int| 0 <= j < calls.len() ==> !(#[trigger] same(j))) ==> match follow.tool_name {
                Some(n) => response_name(message, follow) == n@,
                None => response_name(message, follow) == "unknown"@,
            }
        }),
{
    let calls = message.tool_calls@;
    let same = |j: int|
        (calls[j].id matches Some(s) && follow.tool_call_id matches Some(t) && s@ == t@);
    if let Some(id) = follow.tool_call_id {
        if 0 <= k < calls.len() && same(k) && (forall|j: int| 0 <= j < k ==> !(#[trigger] same(j))) {
            assert forall|j: int| 0 <= j < k implies !(#[trigger] calls[j].id matches Some(s) && s@
                == id@) by {
                assert(!same(j));
            }
            assert(call_with_id(calls, id@, k));
            let m = choose|m: int| call_with_id(calls, id@, m);
            assert(call_with_id(calls, id@, m));
            if m < k {
                assert(!same(m));
            } else if k < m {
                assert(!(calls[k].id matches Some(s) && s@ == id@));
            }
        }
        if forall|j: int| 0 <= j < calls.len() ==> !(#[trigger] same(j)) {
            assert forall|m: int| !call_with_id(calls, id@, m) by {
                if 0 <= m < calls.len() {
                    assert(!same(m));
                }
            }
        }
    }
}

/// Results are written one after the other, each between its markers with its
/// content quoted.
pub proof fn lemma_responses_written(
    message: ChatMessage,
    msgs: Seq<ChatMessage>,
    from: int,
    mid: int,
    to: int,
)
    requires
        from <= mid <= to,
    ensures
        responses_text(message, msgs, from, from) == Seq::<char>::empty(),
        responses_text(message, msgs, from, to) == responses_text(message, msgs, from, mid)
            + responses_text(message, msgs, mid, to),
        responses_text(message, msgs, mid, mid + 1) == "<|tool_response>response:"@ + response_name(
            message,
            msgs[mid],
        ) + "{value:"@ + "<|\"|>"@ + msgs[mid].content@ + "<|\"|>"@ + "}<tool_response|>"@,
    decreases to - mid,
{
    reveal_with_fuel(responses_text, 2);
    assert(responses_text(message, msgs, mid, mid + 1) =~= "<|tool_response>response:"@
        + response_name(message, msgs[mid]) + "{value:"@ + "<|\"|>"@ + msgs[mid].content@
        + "<|\"|>"@ + "}<tool_response|>"@);
    if mid == to {
        assert(responses_text(message, msgs, from, mid) + Seq::<char>::empty() =~= responses_text(
            message,
            msgs,
            from,
            mid,
        ));
    } else {
        lemma_responses_written(message, msgs, from, mid, to - 1);
        let last = response_text(message, msgs[to - 1]);
        assert((responses_text(message, msgs, from, mid) + responses_text(message, msgs, mid, to - 1))
            + last =~= responses_text(message, msgs, from, mid) + (responses_text(
            message,
            msgs,
            mid,
            to - 1,
        ) + last));
    }
}

/// The run of tool messages that starts at `from`.
pub proof fn lemma_tools_end(msgs: Seq<ChatMessage>, from: int)
    requires
        0 <= from <= msgs.len(),
    ensures
        from <= tools_end(msgs, from) <= msgs.len(),
        forall|k: int|
            from <= k < tools_end(msgs, from) ==> (#[trigger] msgs[k]).role == ChatRole::Tool,
        tools_end(msgs, from) < msgs.len() ==> msgs[tools_end(msgs, from)].role != ChatRole::Tool,
    decreases msgs.len() - from,
{
    if from < msgs.len() && msgs[from].role == ChatRole::Tool {
        lemma_tools_end(msgs, from + 1);
    }
}

/// Who spoke last among the first `n` messages, tool results set aside, and
/// whether calls were made there.
pub proof fn lemma_last_speaker(msgs: Seq<ChatMessage>, n: int, k: int)
    requires
        0 <= n <= msgs.len(),
    ensures
        (forall|j: int| 0 <= j < n ==> (#[trigger] msgs[j]).role == ChatRole::Tool) ==> last_speaker(
            msgs,
            n,
        ) is None && !ends_in_calls(msgs, n),
        0 <= k < n && msgs[k].role != ChatRole::Tool && (forall|j: int|
            k < j < n ==> (#[trigger] msgs[j]).role == ChatRole::Tool) ==> last_speaker(msgs, n)
            == Some(msgs[k].role) && ends_in_calls(msgs, n) == (msgs[k].tool_calls@.len() > 0),
    decreases n,
{
    if n > 0 {
        lemma_last_speaker(msgs, n - 1, k);
    }
}

/// What a message holds of its own: its text without white space around it,
/// and an assistant's without channels.
pub open spec fn own_text(m: ChatMessage) -> Seq<char> {
    trimmed(
        match m.role {
            ChatRole::Assistant => without_channels(m.content@),
            _ => m.content@,
        },
    )
}

/// A message as it is rendered, part by part. Its own text comes behind its
/// calls and their results whether or not there are any; only what closes the
/// turn depends on them.
#[verifier::rlimit(40)]
pub proof fn lemma_turn_written(msgs: Seq<ChatMessage>, i: int)
    requires
        0 <= i < msgs.len(),
    ensures
        msgs[i].role == ChatRole::Tool ==> turn_text(msgs, i) == Seq::<char>::empty(),
        msgs[i].role != ChatRole::Tool ==> ({
            let m = msgs[i];
            let none = Seq::<char>::empty();
            let n_calls = m.tool_calls@.len();
            let results = i + 1 < msgs.len() && msgs[i + 1].role == ChatRole::Tool && n_calls > 0;
            let opening = if m.role == ChatRole::User {
                "<|turn>user\n"@
            } else if m.role == ChatRole::System {
                "<|turn>system\n"@
            } else if last_speaker(msgs, i) == Some(ChatRole::Assistant) {
                none
            } else {
                "<|turn>model\n"@
            };
            let thought = if n_calls > 0 && m.reasoning is Some && (forall|k: int|
                i <= k < msgs.len() ==> (#[trigger] msgs[k]).role != ChatRole::User) {
                "<|channel>thought\n"@ + m.reasoning->0@ + "\n<channel|>"@
            } else {
                none
            };
            let given = if n_calls > 0 {
                responses_text(m, msgs, i + 1, tools_end(msgs, i + 1))
            } else {
                none
            };
            let ending = if n_calls > 0 && !results {
                "<|tool_response>"@
            } else if results && own_text(m).len() == 0 {
                none
            } else {
                "<turn|>\n"@
            };
            turn_text(msgs, i) == opening + thought + calls_text(m.tool_calls@, n_calls) + given
                + own_text(m) + ending
        }),
{
    let m = msgs[i];
    lemma_own_text_trimmed(m);
    assert(turn_content(m) == own_text(m));
    if m.role == ChatRole::User {
        lemma_join_role();
        assert("<|turn>"@ + role_name(m.role) + "\n"@ == "<|turn>user\n"@);
    } else if m.role == ChatRole::System {
        lemma_join_role();
        assert("<|turn>"@ + role_name(m.role) + "\n"@ == "<|turn>system\n"@);
    } else if m.role == ChatRole::Assistant {
        lemma_join_role();
        assert("<|turn>"@ + role_name(m.role) + "\n"@ == "<|turn>model\n"@);
    }
    if forall|k: int| i <= k < msgs.len() ==> (#[trigger] msgs[k]).role != ChatRole::User {
        assert(!user_from(msgs, i));
    } else {
        assert(user_from(msgs, i));
    }
}

proof fn lemma_join_role()
    ensures
        "<|turn>"@ + "user"@ + "\n"@ == "<|turn>user\n"@,
        "<|turn>"@ + "system"@ + "\n"@ == "<|turn>system\n"@,
        "<|turn>"@ + "model"@ + "\n"@ == "<|turn>model\n"@,
{
    reveal_strlit("<|turn>");
    reveal_strlit("\n");
    reveal_strlit("user");
    reveal_strlit("system");
    reveal_strlit("model");
    reveal_strlit("<|turn>user\n");
    reveal_strlit("<|turn>system\n");
    reveal_strlit("<|turn>model\n");
    assert("<|turn>"@ + "user"@ + "\n"@ =~= "<|turn>user\n"@);
    assert("<|turn>"@ + "system"@ + "\n"@ =~= "<|turn>system\n"@);
    assert("<|turn>"@ + "model"@ + "\n"@ =~= "<|turn>model\n"@);
}

proof fn lemma_own_text_trimmed(m: ChatMessage)
    ensures
        trimmed(own_text(m)) == own_text(m),
{
    let source = match m.role {
        ChatRole::Assistant => without_channels(m.content@),
        _ => m.content@,
    };
    let (a, b) = lemma_trim_margins(source);
    lemma_trim_nothing(source.subrange(a, b));
}

/// The prompt, part by part: the marker of its start, the system turn where
/// there is anything to say in it, every message in order, and where an answer
/// is asked for and no tool results are due, the opening of the model's turn.
#[verifier::rlimit(40)]
pub proof fn lemma_prompt_written(
    messages: Seq<ChatMessage>,
    tools: Seq<ToolDecl>,
    opts: PromptOptions,
    n: nat,
)
    ensures
        ({
            let none = Seq::<char>::empty();
            let system = messages.len() > 0 && messages[0].role == ChatRole::System;
            let msgs = if system {
                messages.skip(1)
            } else {
                messages
            };
            let head = if opts.enable_thinking || tools.len() > 0 || system {
                "<|turn>system\n"@ + (if opts.enable_thinking {
                    "<|think|>\n"@
                } else {
                    none
                }) + (if system {
                    trimmed(messages[0].content@)
                } else {
                    none
                }) + tools_text(tools, tools.len()) + "<turn|>\n"@
            } else {
                none
            };
            let due = ends_in_calls(msgs, msgs.len() as int);
            let answer = if opts.add_generation_prompt && !due {
                "<|turn>model\n"@ + (if opts.enable_thinking {
                    none
                } else {
                    "<|channel>thought\n<channel|>"@
                })
            } else {
                none
            };
            &&& prompt_text(messages, tools, opts) == "<bos>"@ + head + turns_text(msgs, msgs.len())
                + answer
            &&& turns_text(msgs, 0) == none
            &&& turns_text(msgs, n + 1) == turns_text(msgs, n) + turn_text(msgs, n as int)
            &&& tools_text(tools, 0) == none
            &&& tools_text(tools, n + 1) == tools_text(tools, n) + "<|tool>"@ + trimmed(
                declaration_text(tools[n as int]),
            ) + "<tool|>"@
        }),
{
    let msgs = spoken(messages);
    assert(turns_text(msgs, n + 1) == turns_text(msgs, n) + turn_text(msgs, n as int));
    assert(tools_text(tools, n) + ("<|tool>"@ + trimmed(declaration_text(tools[n as int]))
        + "<tool|>"@) =~= tools_text(tools, n) + "<|tool>"@ + trimmed(
        declaration_text(tools[n as int]),
    ) + "<tool|>"@);
}

/// The messages are the same but for the content of message `i`.
pub open spec fn differ_in_content(a: Seq<ChatMessage>, b: Seq<ChatMessage>, i: int) -> bool {
    &&& a.len() == b.len()
    &&& 0 <= i < a.len()
    &&& forall|k: int| 0 <= k < a.len() && k != i ==> a[k] == b[k]
    &&& a[i].role == b[i].role
    &&& a[i].reasoning == b[i].reasoning
    &&& a[i].tool_calls == b[i].tool_calls
    &&& a[i].tool_call_id == b[i].tool_call_id
    &&& a[i].tool_name == b[i].tool_name
}

proof fn lemma_scan_same(a: Seq<ChatMessage>, b: Seq<ChatMessage>, i: int, from: int)
    requires
        differ_in_content(a, b, i),
        0 <= from,
    ensures
        tools_end(a, from) == tools_end(b, from),
    decreases a.len() - from,
{
    if from < a.len() {
        lemma_scan_same(a, b, i, from + 1);
        assert(a[from].role == b[from].role);
    }
}

proof fn lemma_speaker_same(a: Seq<ChatMessage>, b: Seq<ChatMessage>, i: int, n: int)
    requires
        differ_in_content(a, b, i),
        n <= a.len(),
    ensures
        last_speaker(a, n) == last_speaker(b, n),
        ends_in_calls(a, n) == ends_in_calls(b, n),
    decreases n,
{
    if n > 0 {
        lemma_speaker_same(a, b, i, n - 1);
        assert(a[n - 1].role == b[n - 1].role);
        assert(a[n - 1].tool_calls == b[n - 1].tool_calls);
    }
}

proof fn lemma_responses_same(
    m: ChatMessage,
    k: ChatMessage,
    a: Seq<ChatMessage>,
    b: Seq<ChatMessage>,
    from: int,
    to: int,
)
    requires
        m.tool_calls == k.tool_calls,
        0 <= from,
        to <= a.len(),
        to <= b.len(),
        forall|j: int| from <= j < to ==> a[j] == b[j],
    ensures
        responses_text(m, a, from, to) == responses_text(k, b, from, to),
    decreases to - from,
{
    if from < to {
        lemma_responses_same(m, k, a, b, from, to - 1);
        assert(a[to - 1] == b[to - 1]);
    }
}

#[verifier::rlimit(40)]
proof fn lemma_turn_same(a: Seq<ChatMessage>, b: Seq<ChatMessage>, i: int, k: int)
    requires
        differ_in_content(a, b, i),
        a[i].role != ChatRole::Tool,
        0 <= k < a.len(),
    ensures
        k != i ==> turn_text(a, k) == turn_text(b, k),
        turn_opening(a, k) == turn_opening(b, k),
        turn_thought(a, k) == turn_thought(b, k),
        turn_responses(a, k) == turn_responses(b, k),
        answered(a, k) == answered(b, k),
{
    lemma_speaker_same(a, b, i, k);
    lemma_scan_same(a, b, i, k + 1);
    assert(a[k].role == b[k].role && a[k].tool_calls == b[k].tool_calls && a[k].reasoning
        == b[k].reasoning);
    if user_from(a, k) {
        let j = choose|j: int| k <= j < a.len() && (#[trigger] a[j]).role == ChatRole::User;
        assert(b[j].role == a[j].role);
    }
    if user_from(b, k) {
        let j = choose|j: int| k <= j < b.len() && (#[trigger] b[j]).role == ChatRole::User;
        assert(a[j].role == b[j].role);
    }
    lemma_tools_end(a, k + 1);
    let end = tools_end(a, k + 1);
    assert forall|j: int| k + 1 <= j < end implies a[j] == b[j] by {
        assert(a[j].role == ChatRole::Tool);
    }
    lemma_responses_same(a[k], b[k], a, b, k + 1, end);
    if k + 1 < a.len() {
        assert(a[k + 1].role == b[k + 1].role);
    }
}

proof fn lemma_front_same(x: Seq<char>, y: Seq<char>, t: Seq<char>)
    requires
        x + t == y + t,
    ensures
        x == y,
{
    assert((x + t).len() == (y + t).len());
    assert(x =~= (x + t).take(x.len() as int));
    assert(y =~= (y + t).take(y.len() as int));
}

proof fn lemma_tails_tell(
    pre: Seq<char>,
    ca: Seq<char>,
    ea: Seq<char>,
    cb: Seq<char>,
    eb: Seq<char>,
)
    requires
        ca != cb,
        ea == eb || (ca + ea).len() == 0 && (cb + eb).len() > 0 || (cb + eb).len() == 0 && (ca
            + ea).len() > 0,
    ensures
        pre + (ca + ea) != pre + (cb + eb),
{
    let (left, right) = (pre + (ca + ea), pre + (cb + eb));
    if left == right {
        assert(left.skip(pre.len() as int) =~= ca + ea);
        assert(right.skip(pre.len() as int) =~= cb + eb);
        if ea == eb {
            lemma_front_same(ca, cb, ea);
        }
    }
}

proof fn lemma_ending_same(a: Seq<ChatMessage>, b: Seq<ChatMessage>, i: int)
    requires
        differ_in_content(a, b, i),
        a[i].role != ChatRole::Tool,
        own_text(a[i]) != own_text(b[i]),
    ensures
        ({
            let (ca, cb) = (own_text(a[i]), own_text(b[i]));
            let (ea, eb) = (turn_ending(a, i), turn_ending(b, i));
            ea == eb || (ca + ea).len() == 0 && (cb + eb).len() > 0 || (cb + eb).len() == 0 && (ca
                + ea).len() > 0
        }),
{
    lemma_turn_same(a, b, i, i);
    lemma_own_text_trimmed(a[i]);
    lemma_own_text_trimmed(b[i]);
    reveal_strlit("<turn|>\n");
    assert(turn_content(a[i]) == own_text(a[i]));
    assert(turn_content(b[i]) == own_text(b[i]));
}

#[verifier::rlimit(40)]
proof fn lemma_turn_tells(front: Seq<char>, a: Seq<ChatMessage>, b: Seq<ChatMessage>, i: int)
    requires
        differ_in_content(a, b, i),
        a[i].role != ChatRole::Tool,
        own_text(a[i]) != own_text(b[i]),
    ensures
        front + turn_text(a, i) != front + turn_text(b, i),
{
    lemma_turn_same(a, b, i, i);
    lemma_own_text_trimmed(a[i]);
    lemma_own_text_trimmed(b[i]);
    let head = turn_opening(a, i) + turn_thought(a, i) + calls_text(
        a[i].tool_calls@,
        a[i].tool_calls@.len(),
    ) + turn_responses(a, i);
    let (ca, cb) = (own_text(a[i]), own_text(b[i]));
    let (ea, eb) = (turn_ending(a, i), turn_ending(b, i));
    lemma_ending_same(a, b, i);
    lemma_tails_tell(front + head, ca, ea, cb, eb);
    assert(turn_text(a, i) == head + ca + ea);
    assert(turn_text(b, i) == head + cb + eb);
    assert(front + (head + ca + ea) =~= (front + head) + (ca + ea));
    assert(front + (head + cb + eb) =~= (front + head) + (cb + eb));
}

#[verifier::rlimit(40)]
proof fn lemma_turns_same(a: Seq<ChatMessage>, b: Seq<ChatMessage>, i: int, n: nat)
    requires
        differ_in_content(a, b, i),
        a[i].role != ChatRole::Tool,
        own_text(a[i]) != own_text(b[i]),
        n <= a.len(),
    ensures
        n <= i ==> turns_text(a, n) == turns_text(b, n),
        n > i ==> turns_text(a, n) != turns_text(b, n),
    decreases n,
{
    if n > 0 {
        let k = n - 1;
        lemma_turns_same(a, b, i, k as nat);
        lemma_turn_same(a, b, i, k);
        let (ta, tb) = (turns_text(a, k as nat), turns_text(b, k as nat));
        if k > i {
            if ta + turn_text(a, k) == tb + turn_text(a, k) {
                lemma_front_same(ta, tb, turn_text(a, k));
            }
        } else if k == i {
            lemma_turn_tells(ta, a, b, i);
        }
    }
}

/// Every message's own text shows in the prompt, whatever its role, its calls
/// and their results: conversations that differ only in it give different
/// prompts.
#[verifier::rlimit(40)]
pub proof fn lemma_content_tells(
    a: Seq<ChatMessage>,
    b: Seq<ChatMessage>,
    i: int,
    tools: Seq<ToolDecl>,
    opts: PromptOptions,
)
    requires
        differ_in_content(a, b, i),
        a[i].role != ChatRole::Tool,
        own_text(a[i]) != own_text(b[i]),
    ensures
        prompt_text(a, tools, opts) != prompt_text(b, tools, opts),
{
    assert(a[0].role == b[0].role);
    if opens_with_system(a) && i == 0 {
        lemma_system_tells(a, b, tools, opts);
    } else {
        lemma_spoken_tells(a, b, i, tools, opts);
    }
}

/// Texts that differ in their middle differ.
proof fn lemma_middle_tells(head: Seq<char>, a: Seq<char>, b: Seq<char>, rest: Seq<char>)
    requires
        a != b,
    ensures
        head + a + rest != head + b + rest,
{
    let (x, y) = (head + a + rest, head + b + rest);
    if x == y {
        assert(x.len() == y.len());
        assert(a.len() == b.len());
        assert(a =~= x.subrange(head.len() as int, (head.len() + a.len()) as int));
        assert(b =~= y.subrange(head.len() as int, (head.len() + b.len()) as int));
    }
}

#[verifier::rlimit(40)]
proof fn lemma_system_tells(
    a: Seq<ChatMessage>,
    b: Seq<ChatMessage>,
    tools: Seq<ToolDecl>,
    opts: PromptOptions,
)
    requires
        differ_in_content(a, b, 0),
        opens_with_system(a),
        own_text(a[0]) != own_text(b[0]),
    ensures
        prompt_text(a, tools, opts) != prompt_text(b, tools, opts),
{
    let (ma, mb) = (spoken(a), spoken(b));
    assert(ma =~= mb);
    let (ta, tb) = (own_text(a[0]), own_text(b[0]));
    let head = "<bos>"@ + ("<|turn>system\n"@ + shown_if(opts.enable_thinking, "<|think|>\n"@));
    let rest = tools_text(tools, tools.len()) + "<turn|>\n"@ + turns_text(ma, ma.len())
        + generation_text(ma, opts);
    let (open, think) = ("<|turn>system\n"@, shown_if(opts.enable_thinking, "<|think|>\n"@));
    let (list, close) = (tools_text(tools, tools.len()), "<turn|>\n"@);
    let (turns, answer) = (turns_text(ma, ma.len()), generation_text(ma, opts));
    assert(prompt_text(a, tools, opts) == "<bos>"@ + (open + think + ta + list + close) + turns
        + answer);
    assert(prompt_text(b, tools, opts) == "<bos>"@ + (open + think + tb + list + close) + turns
        + answer);
    lemma_regroup("<bos>"@, open, think, ta, list, close, turns, answer);
    lemma_regroup("<bos>"@, open, think, tb, list, close, turns, answer);
    lemma_middle_tells(head, ta, tb, rest);
}

proof fn lemma_regroup(
    a: Seq<char>,
    b: Seq<char>,
    c: Seq<char>,
    d: Seq<char>,
    e: Seq<char>,
    f: Seq<char>,
    g: Seq<char>,
    h: Seq<char>,
)
    ensures
        a + (b + c + d + e + f) + g + h == a + (b + c) + d + (e + f + g + h),
{
    assert(a + (b + c + d + e + f) + g + h =~= a + (b + c) + d + (e + f + g + h));
}

#[verifier::rlimit(40)]
proof fn lemma_spoken_tells(
    a: Seq<ChatMessage>,
    b: Seq<ChatMessage>,
    i: int,
    tools: Seq<ToolDecl>,
    opts: PromptOptions,
)
    requires
        differ_in_content(a, b, i),
        a[i].role != ChatRole::Tool,
        own_text(a[i]) != own_text(b[i]),
        a[0].role == b[0].role,
        !(opens_with_system(a) && i == 0),
    ensures
        prompt_text(a, tools, opts) != prompt_text(b, tools, opts),
{
    let (ma, mb) = (spoken(a), spoken(b));
    let j = if opens_with_system(a) {
        i - 1
    } else {
        i
    };
    assert(differ_in_content(ma, mb, j)) by {
        if opens_with_system(a) {
            assert(ma[j] == a[i] && mb[j] == b[i]);
            assert forall|k: int| 0 <= k < ma.len() && k != j implies ma[k] == mb[k] by {
                assert(ma[k] == a[k + 1] && mb[k] == b[k + 1]);
            }
        }
    }
    assert(ma[j] == a[i] && mb[j] == b[i]);
    lemma_turns_same(ma, mb, j, ma.len());
    lemma_speaker_same(ma, mb, j, ma.len() as int);
    let head = "<bos>"@ + system_text(a, tools, opts);
    assert(system_text(a, tools, opts) == system_text(b, tools, opts)) by {
        if opens_with_system(a) {
            assert(a[0] == b[0]);
        }
    }
    let g = generation_text(ma, opts);
    assert(g == generation_text(mb, opts));
    lemma_middle_tells(head, turns_text(ma, ma.len()), turns_text(mb, mb.len()), g);
}

} // verus!
