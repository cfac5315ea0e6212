//! The decisions of token-level generation: when to stop, and how much of a
//! conversation stays resident between requests.
//!
//! One conversation's KV state stays resident across requests; a new request
//! reuses it where its prompt continues the resident history, and prefills
//! only the suffix. Reuse is all-or-nothing: rolling back to a mid-history
//! position is not possible, because every later position overwrote a ring
//! slot inside that position's attention window.

use vstd::prelude::*;

use crate::model::{lemma_prefill_runs, Action, GpuModel, GraphKey, HostState};

verus! {

/// `<eos>` and `<end_of_turn>`.
pub const EOS_TOKENS: [u32; 2] = [1, 106];

/// Why generation stopped.
#[derive(Debug, Clone, Copy, PartialEq, Eq, Structural)]
pub enum StopReason {
    Eos(u32),
    MaxTokens,
    Aborted,
}

/// Whether a token ends the text.
pub open spec fn ends_text(tok: u32) -> bool {
    EOS_TOKENS@.contains(tok)
}

/// Whether a token ends the text.
pub fn is_eos(tok: u32) -> (r: bool)
    ensures
        r == ends_text(tok),
        r == (tok == 1 || tok == 106),
{
    let eos: [u32; 2] = EOS_TOKENS;
    assert(EOS_TOKENS@ == seq![1u32, 106u32]);
    assert(EOS_TOKENS@[0] == 1 && EOS_TOKENS@[1] == 106);
    tok == eos[0] || tok == eos[1]
}

/// Why generation stops before any token is sampled; nothing where one may be.
pub open spec fn stop_before(max_tokens: nat) -> Option<StopReason> {
    if max_tokens == 0 {
        Some(StopReason::MaxTokens)
    } else {
        None
    }
}

/// Says why generation stops before its first token, where it does: a limit
/// of no tokens allows none.
pub fn before_first(max_tokens: usize) -> (r: Option<StopReason>)
    ensures
        r == stop_before(max_tokens as nat),
        r == (if max_tokens == 0 {
            Some(StopReason::MaxTokens)
        } else {
            None
        }),
{
    if max_tokens == 0 {
        Some(StopReason::MaxTokens)
    } else {
        None
    }
}

/// Why generation stops after `tok`, the last of `produced` tokens; nothing
/// where it goes on. The caller's abort comes first, then the end of the
/// text, then the limit.
pub open spec fn stop_after(tok: u32, go_on: bool, produced: nat, max_tokens: nat) -> Option<
    StopReason,
> {
    if !go_on {
        Some(StopReason::Aborted)
    } else if ends_text(tok) {
        Some(StopReason::Eos(tok))
    } else if produced >= max_tokens {
        Some(StopReason::MaxTokens)
    } else {
        None
    }
}

/// The tokens generated for one request.
pub struct Generation {
    out: Vec<u32>,
    max_tokens: usize,
}

impl View for Generation {
    type V = Seq<u32>;

    closed spec fn view(&self) -> Seq<u32> {
        self.out@
    }
}

impl Generation {
    /// The limit on the number of tokens.
    pub closed spec fn limit(self) -> nat {
        self.max_tokens as nat
    }

    pub fn new(max_tokens: usize) -> (g: Self)
        ensures
            g@ == Seq::<u32>::empty(),
            g.limit() == max_tokens,
    {
        Generation { out: Vec::new(), max_tokens }
    }

    /// Takes a sampled token, where the limit leaves room for one; `go_on` is
    /// the caller's answer to it. Says why generation stops, where it does.
    /// Where it goes on there is room for another.
    pub fn take(&mut self, tok: u32, go_on: bool) -> (r: Option<StopReason>)
        requires
            old(self)@.len() < old(self).limit(),
        ensures
            final(self)@ == old(self)@.push(tok),
            final(self).limit() == old(self).limit(),
            final(self)@.len() <= final(self).limit(),
            r == stop_after(tok, go_on, old(self)@.len() + 1, old(self).limit()),
            r is None ==> final(self)@.len() < final(self).limit(),
    {
        self.out.push(tok);
        if !go_on {
            return Some(StopReason::Aborted);
        }
        if is_eos(tok) {
            return Some(StopReason::Eos(tok));
        }
        if self.out.len() >= self.max_tokens {
            return Some(StopReason::MaxTokens);
        }
        None
    }

    /// The tokens sampled so far.
    pub fn tokens(&self) -> (out: &Vec<u32>)
        ensures
            out@ == self@,
    {
        &self.out
    }

    pub fn into_tokens(self) -> (out: Vec<u32>)
        ensures
            out@ == self@,
    {
        self.out
    }
}

/// Generation that goes on has produced fewer tokens than the limit, and no
/// token that ends the text.
pub proof fn lemma_goes_on_within_limit(tok: u32, go_on: bool, produced: nat, max_tokens: nat)
    requires
        stop_after(tok, go_on, produced, max_tokens) is None,
    ensures
        produced < max_tokens,
        !ends_text(tok),
        go_on,
{
}

/// The tokens `out` of a request came one after the other: generation started
/// at all, and every token but the last went on.
pub open spec fn went_on(out: Seq<u32>, answers: Seq<bool>, max_tokens: nat) -> bool {
    &&& out.len() > 0 ==> stop_before(max_tokens) is None
    &&& forall|i: int|
        0 <= i < out.len() - 1 ==> stop_after(
            #[trigger] out[i],
            answers[i],
            (i + 1) as nat,
            max_tokens,
        ) is None
}

/// A request gives at most the limit of tokens, whatever the limit, and none
/// that ends the text before its last.
pub proof fn lemma_request_bounded(out: Seq<u32>, answers: Seq<bool>, max_tokens: nat)
    requires
        went_on(out, answers, max_tokens),
    ensures
        out.len() <= max_tokens,
        forall|i: int| 0 <= i < out.len() - 1 ==> !ends_text(#[trigger] out[i]),
{
    if out.len() > 1 {
        let i = out.len() - 2;
        assert(stop_after(out[i], answers[i], (i + 1) as nat, max_tokens) is None);
    }
}

/// Whether the resident history can be kept for `prompt`: it is a start of
/// the prompt, and not all of it (the last token must run for its logits).
pub open spec fn continues(history: Seq<u32>, prompt: Seq<u32>) -> bool {
    history.len() < prompt.len() && prompt.take(history.len() as int) == history
}

/// A conversation on its way through the device.
pub struct Resident {
    pub host: HostState,
    /// Tokens whose KV is resident.
    pub history: Seq<u32>,
    /// Tokens that the device is asked to run next.
    pub coming: Seq<u32>,
}

impl Resident {
    /// The host stands right behind the history.
    pub open spec fn level(self) -> bool {
        self.host.pos == self.history.len()
    }

    /// Tokens that are done move over to the history.
    pub open spec fn did(self, action: Action) -> Resident {
        match action {
            Action::Advance(n) => Resident {
                host: self.host.did(action),
                history: self.history + self.coming.take(n as int),
                coming: self.coming.skip(n as int),
            },
            _ => Resident { host: self.host.did(action), ..self },
        }
    }

    pub open spec fn did_all(self, actions: Seq<Action>) -> Resident
        decreases actions.len(),
    {
        if actions.len() == 0 {
            self
        } else {
            self.did_all(actions.drop_last()).did(actions.last())
        }
    }

    /// Whether an action makes sense now: the host allows it, and no more
    /// tokens are done than were asked for.
    pub open spec fn allows(self, max_chunk: int, action: Action) -> bool {
        &&& self.host.allows(max_chunk, action)
        &&& action matches Action::Advance(n) ==> n <= self.coming.len()
    }

    pub open spec fn allows_all(self, max_chunk: int, actions: Seq<Action>) -> bool
        decreases actions.len(),
    {
        actions.len() == 0 || {
            &&& self.allows_all(max_chunk, actions.drop_last())
            &&& self.did_all(actions.drop_last()).allows(max_chunk, actions.last())
        }
    }
}

/// A single resident conversation.
#[derive(Debug)]
pub struct Session {
    model: GpuModel,
    /// Tokens whose KV is resident; always `model.pos` long.
    history: Vec<u32>,
    /// Tokens that the device is asked to run.
    coming: Vec<u32>,
    /// How many of them it has run.
    ran: usize,
}

impl View for Session {
    type V = Seq<u32>;

    closed spec fn view(&self) -> Seq<u32> {
        self.history@
    }
}

impl Session {
    /// The model as the host sees it.
    pub closed spec fn model(self) -> GpuModel {
        self.model
    }

    /// The tokens that the device is asked to run and has not run yet.
    pub closed spec fn coming(self) -> Seq<u32> {
        self.coming@.skip(self.ran as int)
    }

    pub open spec fn resident(self) -> Resident {
        Resident { host: self.model().state(), history: self@, coming: self.coming() }
    }

    /// No more has been run than was asked for.
    pub closed spec fn runs_within(self) -> bool {
        self.ran <= self.coming@.len()
    }

    /// The model stands right behind the history.
    pub open spec fn wf(self) -> bool {
        &&& self.model().wf()
        &&& self.model().pos == self@.len()
        &&& self.runs_within()
    }

    pub fn new(model: GpuModel) -> (s: Self)
        requires
            model.wf(),
            model.pos == 0,
        ensures
            s.wf(),
            s.model() == model,
            s@ == Seq::<u32>::empty(),
            s.coming() == Seq::<u32>::empty(),
    {
        Session { model, history: Vec::new(), coming: Vec::new(), ran: 0 }
    }

    /// Tokens currently resident (prompt + generated, all requests).
    pub fn history(&self) -> (h: &Vec<u32>)
        ensures
            h@ == self@,
    {
        &self.history
    }

    /// The model as the host sees it.
    pub fn host(&self) -> (m: &GpuModel)
        ensures
            *m == self.model(),
    {
        &self.model
    }

    /// Drops all resident state.
    pub fn reset(&mut self)
        ensures
            final(self)@ == Seq::<u32>::empty(),
            final(self).coming() == Seq::<u32>::empty(),
            final(self).model() == (GpuModel { pos: 0, ..old(self).model() }),
            old(self).model().wf() ==> final(self).wf(),
    {
        self.model.reset();
        self.history = Vec::new();
        self.coming = Vec::new();
        self.ran = 0;
    }

    /// The device failed on an action: nothing more is coming of what it was
    /// asked to run. What it has run stays resident.
    pub fn failed(&mut self)
        requires
            old(self).wf(),
        ensures
            final(self).wf(),
            final(self)@ == old(self)@,
            final(self).model() == old(self).model(),
            final(self).coming() == Seq::<u32>::empty(),
    {
        self.coming = Vec::new();
        self.ran = 0;
        assert(self.coming() =~= Seq::empty());
    }

    /// How many tokens the history and `prompt` start with in common.
    fn common(&self, prompt: &[u32]) -> (n: usize)
        ensures
            n <= self@.len(),
            n <= prompt@.len(),
            self@.take(n as int) == prompt@.take(n as int),
            n < self@.len() && n < prompt@.len() ==> self@[n as int] != prompt@[n as int],
    {
        let mut n: usize = 0;
        while n < self.history.len() && n < prompt.len() && self.history[n] == prompt[n]
            invariant
                n <= self@.len(),
                n <= prompt@.len(),
                self@ == self.history@,
                self@.take(n as int) == prompt@.take(n as int),
            decreases self@.len() - n,
        {
            assert(self@.take(n + 1) =~= self@.take(n as int).push(self@[n as int]));
            assert(prompt@.take(n + 1) =~= prompt@.take(n as int).push(prompt@[n as int]));
            n = n + 1;
        }
        n
    }

    /// Starts a request for `prompt`, the full conversation so far: keeps the
    /// history where the prompt continues it, drops it otherwise. Says from
    /// where the prompt is prefilled, and what that asks of the device.
    pub fn request(&mut self, prompt: &[u32]) -> (r: (usize, Vec<Action>))
        requires
            old(self).wf(),
            0 < old(self).model().max_chunk,
            prompt@.len() > 0,
            prompt@.len() <= old(self).model().global_cap,
            prompt@.len() <= u32::MAX,
        ensures
            r.0 == resumed(old(self)@, prompt@),
            r.0 < prompt@.len(),
            final(self).wf(),
            final(self)@ == prompt@.take(r.0 as int),
            final(self).coming() == prompt@.skip(r.0 as int),
            final(self).model() == (GpuModel { pos: r.0 as u32, ..old(self).model() }),
            (r.1)@ == final(self).model().prefill_run(prompt@.len() - r.0).actions,
            final(self).resident().allows_all(final(self).model().max_chunk as int, (r.1)@),
            final(self).resident().did_all((r.1)@).history == prompt@,
    {
        let ghost kept = self@;
        let common: usize = self.common(prompt);
        let dropped: bool = common < self.history.len() || self.history.len() >= prompt.len();
        proof {
            let h = self@;
            if !dropped {
                assert(h.take(common as int) =~= h);
            } else if continues(h, prompt@) {
                assert(prompt@.take(h.len() as int)[common as int] == h[common as int]);
            }
        }
        if dropped {
            self.reset();
        }
        assert(self@ =~= prompt@.take(self@.len() as int));
        let resume: usize = self.history.len();
        let mut coming: Vec<u32> = Vec::new();
        let mut i: usize = resume;
        while i < prompt.len()
            invariant
                resume <= i <= prompt@.len(),
                coming@ == prompt@.subrange(resume as int, i as int),
            decreases prompt@.len() - i,
        {
            coming.push(prompt[i]);
            i = i + 1;
            assert(coming@ =~= prompt@.subrange(resume as int, i as int));
        }
        self.coming = coming;
        self.ran = 0;
        assert(self.coming() =~= prompt@.skip(resume as int));
        proof {
            lemma_request_prefills(self.model(), kept, prompt@);
        }
        (resume, self.model.prefill(prompt.len() - resume))
    }

    /// Runs a sampled token: says what that asks of the device.
    pub fn decode(&mut self, tok: u32) -> (actions: Vec<Action>)
        requires
            old(self).wf(),
            old(self).model().pos < u32::MAX,
        ensures
            final(self).wf(),
            final(self)@ == old(self)@,
            final(self).model() == old(self).model(),
            final(self).coming() == seq![tok],
            actions@ == seq![
                Action::StageToken { token: tok, pos: old(self).model().pos },
                Action::Submit(GraphKey::Decode),
                Action::Advance(1),
                Action::ReadLogits,
            ],
            final(self).resident().allows_all(final(self).model().max_chunk as int, actions@),
            final(self).resident().did_all(actions@).history == old(self)@.push(tok),
    {
        self.coming = vec![tok];
        self.ran = 0;
        assert(self.coming() =~= seq![tok]);
        proof {
            lemma_decode_keeps(self.resident(), self.model().max_chunk as int, tok);
        }
        self.model.decode_step(tok)
    }

    /// Takes note of an action that the device has done. The history moves
    /// with the position.
    pub fn done(&mut self, action: Action)
        requires
            old(self).wf(),
            old(self).resident().allows(old(self).model().max_chunk as int, action),
        ensures
            final(self).wf(),
            final(self).resident() == old(self).resident().did(action),
            final(self).model().desc == old(self).model().desc,
            final(self).model().scales == old(self).model().scales,
            final(self).model().int8 == old(self).model().int8,
            final(self).model().max_chunk == old(self).model().max_chunk,
            final(self).model().global_cap == old(self).model().global_cap,
    {
        let ghost had = self@;
        let ghost coming = self.coming();
        self.model.done(action);
        let ghost after_done = self.model;
        if let Action::Advance(n) = action {
            assert(self.ran + n <= self.coming.len());
            let end: usize = self.ran + n as usize;
            let ghost start = self.ran;
            while self.ran < end
                invariant
                    start <= self.ran <= end == start + n <= self.coming@.len(),
                    coming == self.coming@.skip(start as int),
                    self.model == after_done,
                    self.history@ == had + coming.take(self.ran - start),
                decreases end - self.ran,
            {
                self.history.push(self.coming[self.ran]);
                self.ran = self.ran + 1;
                assert(self.history@ =~= had + coming.take(self.ran - start));
            }
            assert(self.coming() =~= coming.skip(n as int));
        }
    }
}

/// Where a request is resumed: behind the history, or at the start.
pub open spec fn resumed(history: Seq<u32>, prompt: Seq<u32>) -> int {
    if continues(history, prompt) {
        history.len() as int
    } else {
        0
    }
}

/// A run of actions that the host allows, and that stays within the tokens
/// asked for, moves them over to the history one by one; the host stays right
/// behind the history.
proof fn lemma_moves(r: Resident, max_chunk: int, actions: Seq<Action>)
    requires
        r.level(),
        r.host.allows_all(max_chunk, actions),
        r.host.did_all(actions).pos <= r.host.pos + r.coming.len(),
    ensures
        r.allows_all(max_chunk, actions),
        r.did_all(actions).level(),
        r.did_all(actions).host == r.host.did_all(actions),
        r.did_all(actions).history + r.did_all(actions).coming == r.history + r.coming,
    decreases actions.len(),
{
    if actions.len() > 0 {
        lemma_moves(r, max_chunk, actions.drop_last());
        let before = r.did_all(actions.drop_last());
        assert(before.history.len() + before.coming.len() == (r.history + r.coming).len());
        let action = actions.last();
        assert(before.allows(max_chunk, action));
        if let Action::Advance(n) = action {
            assert(before.did(action).history + before.did(action).coming =~= before.history
                + before.coming);
        }
    }
}

/// After every part of a run of actions the host stands right behind the
/// history: where the device fails on the next action, too.
pub proof fn lemma_history_is_level(r: Resident, max_chunk: int, actions: Seq<Action>, n: int)
    requires
        r.level(),
        r.allows_all(max_chunk, actions),
        0 <= n <= actions.len(),
    ensures
        r.did_all(actions.take(n)).level(),
    decreases actions.len(),
{
    if n < actions.len() {
        assert(actions.drop_last().take(n) =~= actions.take(n));
        lemma_history_is_level(r, max_chunk, actions.drop_last(), n);
    } else if n > 0 {
        assert(actions.take(n) =~= actions);
        let rest = actions.drop_last();
        assert(rest.take(n - 1) =~= rest);
        lemma_history_is_level(r, max_chunk, rest, n - 1);
    }
}

/// When a request's actions are done, its prompt is what is resident, and
/// every action made sense when it came.
pub proof fn lemma_request_prefills(m: GpuModel, history: Seq<u32>, prompt: Seq<u32>)
    requires
        m.wf(),
        0 < m.max_chunk,
        m.pos == resumed(history, prompt),
        0 < prompt.len() <= u32::MAX,
    ensures
        ({
            let actions = m.prefill_run(prompt.len() - m.pos).actions;
            let start = Resident {
                host: m.state(),
                history: prompt.take(m.pos as int),
                coming: prompt.skip(m.pos as int),
            };
            let end = start.did_all(actions);
            &&& start.allows_all(m.max_chunk as int, actions)
            &&& end.level()
            &&& end.history == prompt
            &&& end.coming == Seq::<u32>::empty()
        }),
{
    let actions = m.prefill_run(prompt.len() - m.pos).actions;
    let start = Resident {
        host: m.state(),
        history: prompt.take(m.pos as int),
        coming: prompt.skip(m.pos as int),
    };
    lemma_prefill_runs(m, prompt.len() - m.pos);
    lemma_moves(start, m.max_chunk as int, actions);
    let end = start.did_all(actions);
    assert(end.history.len() == prompt.len());
    assert(end.history + end.coming =~= prompt);
    assert(end.history =~= (end.history + end.coming).take(end.history.len() as int));
    assert(end.coming =~= Seq::empty());
}

/// When a decode step's actions are done, its token is resident too, and
/// every action made sense when it came.
pub proof fn lemma_decode_keeps(r: Resident, max_chunk: int, tok: u32)
    requires
        r.level(),
        r.coming == seq![tok],
        r.host.pos < u32::MAX,
    ensures
        ({
            let actions = seq![
                Action::StageToken { token: tok, pos: r.host.pos as u32 },
                Action::Submit(GraphKey::Decode),
                Action::Advance(1),
                Action::ReadLogits,
            ];
            &&& r.allows_all(max_chunk, actions)
            &&& r.did_all(actions).level()
            &&& r.did_all(actions).history == r.history.push(tok)
        }),
{
    let stage = Action::StageToken { token: tok, pos: r.host.pos as u32 };
    let actions = seq![
        stage,
        Action::Submit(GraphKey::Decode),
        Action::Advance(1),
        Action::ReadLogits,
    ];
    let three = seq![stage, Action::Submit(GraphKey::Decode), Action::Advance(1)];
    let two = seq![stage, Action::Submit(GraphKey::Decode)];
    assert(actions.drop_last() =~= three);
    assert(three.drop_last() =~= two);
    assert(two.drop_last() =~= seq![stage]);
    assert(seq![stage].drop_last() =~= Seq::empty());
    reveal_with_fuel(Resident::did_all, 5);
    reveal_with_fuel(Resident::allows_all, 5);
    assert(r.did_all(two) == r);
    assert(r.history + seq![tok].take(1) =~= r.history.push(tok));
}

/// A request after a reset does what a cold one does: it resumes nothing.
pub proof fn lemma_reset_is_cold(prompt: Seq<u32>)
    requires
        prompt.len() > 0,
    ensures
        resumed(Seq::<u32>::empty(), prompt) == 0,
{
}

/// What is resident after a request: its prompt, and every token of its
/// answer but the last, which was sampled and never run.
pub open spec fn resident_after(prompt: Seq<u32>, out: Seq<u32>) -> Seq<u32> {
    if out.len() == 0 {
        prompt
    } else {
        prompt + out.drop_last()
    }
}

/// A conversation that goes on where the last answer ended is resumed: its
/// prompt continues what is resident.
pub proof fn lemma_next_turn_resumes(prompt: Seq<u32>, out: Seq<u32>, more: Seq<u32>)
    requires
        out.len() + more.len() > 0,
    ensures
        continues(resident_after(prompt, out), prompt + out + more),
{
    let history = resident_after(prompt, out);
    let next = prompt + out + more;
    assert(next.take(history.len() as int) =~= history);
}

/// A request that is sent again is not resumed: nothing of its prompt would
/// be left to run.
pub proof fn lemma_retry_restarts(prompt: Seq<u32>, out: Seq<u32>)
    ensures
        !continues(resident_after(prompt, out), prompt),
{
}

/// A prompt that differs from the history restarts.
pub proof fn lemma_divergence_restarts(history: Seq<u32>, prompt: Seq<u32>, i: int)
    requires
        0 <= i < history.len(),
        i < prompt.len(),
        history[i] != prompt[i],
    ensures
        !continues(history, prompt),
{
    if history.len() < prompt.len() {
        assert(prompt.take(history.len() as int)[i] == prompt[i]);
    }
}

/// Any history is kept, whatever its length, for a prompt that goes on from it
/// with at least one token; for every other prompt nothing of it is.
pub proof fn lemma_resumes_behind_history(history: Seq<u32>, more: Seq<u32>, prompt: Seq<u32>)
    ensures
        more.len() > 0 ==> resumed(history, history + more) == history.len(),
        resumed(history, prompt) != 0 ==> history.len() < prompt.len() && exists|rest: Seq<u32>|
            prompt == #[trigger] (history + rest),
{
    if more.len() > 0 {
        assert((history + more).take(history.len() as int) =~= history);
    }
    if resumed(history, prompt) != 0 {
        let rest = prompt.skip(history.len() as int);
        assert(prompt =~= history + rest);
    }
}

/// Why generation stops after a token, whatever came before: the caller's
/// answer, then `<eos>` or `<end_of_turn>`, then the limit; otherwise it goes
/// on.
pub proof fn lemma_stop_reasons(tok: u32, go_on: bool, produced: nat, max_tokens: nat)
    ensures
        stop_after(tok, false, produced, max_tokens) == Some(StopReason::Aborted),
        tok == 1 || tok == 106 ==> stop_after(tok, true, produced, max_tokens) == Some(
            StopReason::Eos(tok),
        ),
        tok != 1 && tok != 106 && max_tokens <= produced ==> stop_after(
            tok,
            true,
            produced,
            max_tokens,
        ) == Some(StopReason::MaxTokens),
        tok != 1 && tok != 106 && produced < max_tokens ==> stop_after(
            tok,
            true,
            produced,
            max_tokens,
        ) is None,
        stop_before(max_tokens) is None <==> max_tokens > 0,
{
    assert(EOS_TOKENS@ == seq![1u32, 106u32]);
    assert(EOS_TOKENS@[0] == 1 && EOS_TOKENS@[1] == 106);
}

} // verus!
