//! The host side of the model on the device: which graphs are recorded,
//! staged and submitted for a prompt and for a token, and in what order.

use vstd::prelude::*;
use vstd::string::*;

use crate::graph::{
    decode_graph, decode_layers, decode_logits, norm, rows_fit, steps, Buffer, Dispatch, Kernel,
    Slot, Step,
};
use crate::prefill::{
    batch_of, chunk_count, chunk_layers, chunk_of, lemma_chunks_cover, logits_batch, logits_batches, norm_all,
    prefill_chunks, prefill_layers, record_prefill, row_logits, segment_count, segment_steps, Chunk,
    ChunkShape, LogitsMode,
};
use crate::shape::{pad_rows, padded, LayerKind, ModelDesc, FFN, HIDDEN};
use crate::stage::{
    buffers_fit, chunk_positions, decode_step_state, prefill_step_state, prefill_tap, tap_slot, unknown_tap,
    StepState,
};

verus! {

/// The graphs that are recorded once and kept.
#[derive(Debug, Clone, Copy, PartialEq, Eq, Hash, Structural)]
pub enum GraphKey {
    /// The segments of a chunk: padded rows, real rows, logits.
    Prefill(usize, usize, LogitsMode),
    /// The final norm over so many rows.
    NormAll(usize),
    /// The LM head from a row on, over so many rows.
    LogitsBatch(usize, usize),
    /// A whole decode step.
    Decode,
}

/// What is asked of the device.
#[derive(Debug, Clone, Copy, PartialEq, Eq, Structural)]
pub enum Action {
    /// Allocate the logits of every row.
    AllocateLogits,
    Record(GraphKey),
    /// Write the inputs of `len` tokens of the prompt, from `start` on, the
    /// first of them at position `pos`.
    StageChunk { start: usize, len: usize, pos: u32 },
    /// Write the inputs of one token.
    StageToken { token: u32, pos: u32 },
    Submit(GraphKey),
    /// So many tokens are done.
    Advance(u32),
    /// Read the logits of the last row.
    ReadLogits,
    /// Read so many of the logits of every row.
    TakeLogits(u64),
}

/// Actions asked for so far, and the graphs recorded once they are done.
pub struct Run {
    pub actions: Seq<Action>,
    pub known: Seq<GraphKey>,
}

impl Run {
    pub open spec fn did(self, action: Action) -> Run {
        Run { actions: self.actions.push(action), known: self.known }
    }

    /// Records a graph unless it is known.
    pub open spec fn ensured(self, key: GraphKey) -> Run {
        if self.known.contains(key) {
            self
        } else {
            Run {
                actions: self.actions.push(Action::Record(key)),
                known: self.known.push(key),
            }
        }
    }

    /// Submits a graph, recorded first where it is new.
    pub open spec fn submitted(self, key: GraphKey) -> Run {
        self.ensured(key).did(Action::Submit(key))
    }

    /// The layers over one chunk of a prompt that starts at `pos`.
    pub open spec fn with_chunk(self, pos: int, c: Chunk) -> Run {
        let key = GraphKey::Prefill(c.m_pad, c.n_real, c.mode);
        self.ensured(key).did(
            Action::StageChunk { start: c.start, len: c.n_real, pos: (pos + c.start) as u32 },
        ).did(Action::Submit(key)).did(Action::Advance(c.n_real as u32))
    }

    /// The first `n` chunks of `len` tokens; the last chunk computes logits.
    pub open spec fn with_chunks(self, pos: int, len: int, max_chunk: int, n: nat) -> Run
        decreases n,
    {
        if n == 0 {
            self
        } else {
            self.with_chunks(pos, len, max_chunk, (n - 1) as nat).with_chunk(
                pos,
                chunk_of(len, max_chunk, n - 1, true),
            )
        }
    }

    /// The LM head over the first `n` batches of `rows` rows.
    pub open spec fn with_batches(self, rows: int, n: nat) -> Run
        decreases n,
    {
        if n == 0 {
            self
        } else {
            let (start, len) = batch_of(rows, n - 1);
            self.with_batches(rows, (n - 1) as nat).submitted(
                GraphKey::LogitsBatch(start as usize, len as usize),
            )
        }
    }

    /// One chunk with the logits of all its rows.
    pub open spec fn with_all_logits(self, pos: int, c: Chunk, vocab: int) -> Run {
        self.with_chunk(pos, c).submitted(GraphKey::NormAll(c.m_pad)).with_batches(
            c.n_real as int,
            ((c.n_real + 31) / 32) as nat,
        ).did(Action::TakeLogits((c.n_real * vocab) as u64))
    }

    /// The first `n` chunks of `len` tokens, with the logits of every row.
    pub open spec fn with_all_chunks(
        self,
        pos: int,
        len: int,
        max_chunk: int,
        vocab: int,
        n: nat,
    ) -> Run
        decreases n,
    {
        if n == 0 {
            self
        } else {
            self.with_all_chunks(pos, len, max_chunk, vocab, (n - 1) as nat).with_all_logits(
                pos,
                chunk_of(len, max_chunk, n - 1, false),
                vocab,
            )
        }
    }
}

/// A list of actions under construction.
struct Runner {
    actions: Vec<Action>,
    known: Vec<GraphKey>,
}

impl View for Runner {
    type V = Run;

    closed spec fn view(&self) -> Run {
        Run { actions: self.actions@, known: self.known@ }
    }
}

/// Whether a graph is among those recorded.
fn among(known: &Vec<GraphKey>, key: GraphKey) -> (r: bool)
    ensures
        r == known@.contains(key),
{
    let mut i: usize = 0;
    while i < known.len()
        invariant
            i <= known@.len(),
            forall|j: int| 0 <= j < i ==> known@[j] != key,
        decreases known@.len() - i,
    {
        if known[i] == key {
            return true;
        }
        i = i + 1;
    }
    false
}

impl Runner {
    fn act(&mut self, action: Action)
        ensures
            final(self)@ == old(self)@.did(action),
    {
        self.actions.push(action);
    }

    fn ensure(&mut self, key: GraphKey)
        ensures
            final(self)@ == old(self)@.ensured(key),
    {
        if !among(&self.known, key) {
            self.actions.push(Action::Record(key));
            self.known.push(key);
        }
    }

    fn submit(&mut self, key: GraphKey)
        ensures
            final(self)@ == old(self)@.submitted(key),
    {
        self.ensure(key);
        self.act(Action::Submit(key));
    }

    fn chunk(&mut self, pos: u32, c: Chunk)
        requires
            pos + c.start + c.n_real <= u32::MAX,
        ensures
            final(self)@ == old(self)@.with_chunk(pos as int, c),
    {
        let key = GraphKey::Prefill(c.m_pad, c.n_real, c.mode);
        self.ensure(key);
        self.act(
            Action::StageChunk { start: c.start, len: c.n_real, pos: pos + c.start as u32 },
        );
        self.act(Action::Submit(key));
        self.act(Action::Advance(c.n_real as u32));
    }

    fn batches(&mut self, rows: usize)
        requires
            rows + 31 <= usize::MAX,
        ensures
            final(self)@ == old(self)@.with_batches(rows as int, ((rows + 31) / 32) as nat),
    {
        let batches = logits_batches(rows);
        let ghost had = self@;
        let mut k: usize = 0;
        while k < batches.len()
            invariant
                k <= batches@.len() == (rows + 31) / 32,
                forall|k: int|
                    0 <= k < batches@.len() ==> (
                        (#[trigger] batches@[k]).0 as int,
                        batches@[k].1 as int,
                    ) == batch_of(rows as int, k),
                self@ == had.with_batches(rows as int, k as nat),
            decreases batches@.len() - k,
        {
            let (start, len): (usize, usize) = batches[k];
            self.submit(GraphKey::LogitsBatch(start, len));
            k = k + 1;
        }
    }
}

/// The sizes that chunks of up to `m` rows need fit the words that they are
/// counted in.
pub open spec fn chunks_fit(d: ModelDesc, m: int) -> bool {
    rows_fit(d, m) && buffers_fit(d, m)
}

/// Whether a model of these sizes can be held, with chunks of up to
/// `max_chunk` rows.
pub fn sizes_fit(d: &ModelDesc, max_chunk: usize) -> (r: bool)
    ensures
        r == (d.wf() && max_chunk + 63 <= usize::MAX && chunks_fit(
            *d,
            padded(max_chunk as int),
        )),
{
    if !d.valid() || max_chunk > usize::MAX - 63 {
        return false;
    }
    let word: u128 = 0xffff_ffff;
    let ns: u128 = d.sliding.n_kv_heads as u128;
    let ng: u128 = d.global.n_kv_heads as u128;
    let ghost hs = d.sliding.head_dim as int;
    let ghost hg = d.global.head_dim as int;
    let m: u128 = pad_rows(max_chunk) as u128;
    let ghost ls = hs / 2;
    let ghost lg = hg / 8;
    if m * 32 > word {
        return false;
    }
    proof {
        lemma_small(m as int, ns as int, 0xffff_ffff, 0xffff_ffff);
        lemma_small(m as int, ng as int, 0xffff_ffff, 0xffff_ffff);
        lemma_small(m as int * 32, ls, 0xffff_ffff, 0xffff_ffff);
        lemma_small(m as int * 32, lg, 0xffff_ffff, 0xffff_ffff);
        lemma_small(m as int, 32 * hs, 0xffff_ffff, 0xffff_ffff);
        lemma_small(m as int, 32 * hg, 0xffff_ffff, 0xffff_ffff);
        lemma_small(m as int, ns as int * hs, 0xffff_ffff, 0xffff_ffff);
        lemma_small(m as int, ng as int * hg, 0xffff_ffff, 0xffff_ffff);
        lemma_small(m as int, d.vocab_size as int, 0xffff_ffff, 0xffff_ffff);
        lemma_small(m as int, FFN as int, 0xffff_ffff, 0xffff_ffff);
    }
    if m * ns > word || m * ng > word {
        return false;
    }
    proof {
        lemma_small(m as int * ns as int, ls, 0xffff_ffff, 0xffff_ffff);
        lemma_small(m as int * ng as int, lg, 0xffff_ffff, 0xffff_ffff);
    }
    true
}

proof fn lemma_small(a: int, b: int, x: int, y: int)
    requires
        0 <= a <= x,
        0 <= b <= y,
    ensures
        0 <= a * b <= x * y,
{
    assert(0 <= a * b <= x * y) by (nonlinear_arith)
        requires
            0 <= a <= x,
            0 <= b <= y,
    ;
}

/// What the model holds on the host, besides device memory.
#[derive(Debug)]
pub struct GpuModel {
    pub desc: ModelDesc,
    /// Bits of the output scale of every layer.
    pub scales: Vec<u32>,
    /// Whether the feed-forward products of a chunk run on quantized
    /// activations.
    pub int8: bool,
    /// Chunk capacity, whole blocks of 64 rows.
    pub max_chunk: usize,
    /// Capacity of the linear stores, in tokens.
    pub global_cap: usize,
    /// The graphs recorded so far.
    pub recorded: Vec<GraphKey>,
    /// Whether the logits of every row have been allocated.
    pub logits_all: bool,
    /// Absolute position of the next token.
    pub pos: u32,
}

impl GpuModel {
    pub open spec fn wf(self) -> bool {
        &&& self.desc.wf()
        &&& self.scales@.len() == self.desc.n_layers
        &&& self.max_chunk % 64 == 0
        &&& chunks_fit(self.desc, self.max_chunk as int)
        &&& self.recorded@.no_duplicates()
    }

    /// Nothing recorded, at position 0. The chunk capacity is rounded up to
    /// whole blocks of 64 rows.
    pub fn new(
        desc: ModelDesc,
        scales: Vec<u32>,
        int8: bool,
        global_cap: usize,
        max_chunk: usize,
    ) -> (m: Self)
        requires
            desc.wf(),
            scales@.len() == desc.n_layers,
            max_chunk + 63 <= usize::MAX,
            chunks_fit(desc, padded(max_chunk as int)),
        ensures
            m.wf(),
            m.desc == desc,
            m.scales == scales,
            m.int8 == int8,
            m.global_cap == global_cap,
            m.max_chunk == padded(max_chunk as int),
            m.recorded@.len() == 0,
            !m.logits_all,
            m.pos == 0,
    {
        GpuModel {
            desc,
            scales,
            int8,
            max_chunk: pad_rows(max_chunk),
            global_cap,
            recorded: Vec::new(),
            logits_all: false,
            pos: 0,
        }
    }

    /// The graph of the layers `from..to`, with or without the final norm and
    /// the LM head; all layers with logits make a decode step.
    pub fn record(&self, from: usize, to: usize, with_logits: bool) -> (plan: Vec<Dispatch>)
        requires
            self.wf(),
            from <= to <= self.desc.n_layers,
        ensures
            steps(plan@) == decode_layers(self.desc, self.scales@, from as int, to as int) + (
            if with_logits {
                decode_logits(self.desc)
            } else {
                Seq::empty()
            }),
    {
        decode_graph(&self.desc, &self.scales, from, to, with_logits)
    }

    /// The decode layers `from..to` as they are timed, kernel by kernel.
    pub fn record_layers_kernel_profiled(&self, from: usize, to: usize) -> (plan: Vec<Dispatch>)
        requires
            self.wf(),
            from <= to <= self.desc.n_layers,
        ensures
            steps(plan@) == decode_layers(self.desc, self.scales@, from as int, to as int),
    {
        let plan = self.record(from, to, false);
        assert(steps(plan@) =~= decode_layers(self.desc, self.scales@, from as int, to as int));
        plan
    }

    /// The layers `from..to` of a full chunk as they are timed, kernel by
    /// kernel.
    pub fn record_prefill_kernel_profiled(&self, from: usize, to: usize) -> (plan: Vec<Dispatch>)
        requires
            self.wf(),
            0 < self.max_chunk,
            from <= to <= self.desc.n_layers,
        ensures
            steps(plan@) == chunk_layers(
                self.desc,
                self.scales@,
                self.shape(self.max_chunk as int, self.max_chunk as int),
                self.int8,
                from as int,
                to as int,
            ),
    {
        self.record_prefill_layers(from, to, self.max_chunk, self.max_chunk)
    }

    /// A chunk shape that the buffers hold.
    pub open spec fn holds(self, m_pad: int, n_real: int) -> bool {
        &&& m_pad % 64 == 0
        &&& 0 < n_real <= m_pad <= self.max_chunk
    }

    pub open spec fn shape(self, m_pad: int, n_real: int) -> ChunkShape {
        ChunkShape { m_pad: m_pad as usize, n_real: n_real as usize, max_chunk: self.max_chunk }
    }

    /// The graph of the layers `from..to` for a chunk.
    pub fn record_prefill_layers(&self, from: usize, to: usize, m_pad: usize, n_real: usize) -> (plan:
        Vec<Dispatch>)
        requires
            self.wf(),
            self.holds(m_pad as int, n_real as int),
            from <= to <= self.desc.n_layers,
        ensures
            steps(plan@) == chunk_layers(
                self.desc,
                self.scales@,
                self.shape(m_pad as int, n_real as int),
                self.int8,
                from as int,
                to as int,
            ),
    {
        let c = ChunkShape { m_pad, n_real, max_chunk: self.max_chunk };
        proof {
            lemma_shape_fits(self.desc, c);
        }
        prefill_layers(&self.desc, &self.scales, c, self.int8, from, to)
    }

    /// The segments of a chunk, to be submitted in order.
    pub fn record_prefill(&self, m_pad: usize, n_real: usize, mode: LogitsMode) -> (segments: Vec<
        Vec<Dispatch>,
    >)
        requires
            self.wf(),
            self.holds(m_pad as int, n_real as int),
        ensures
            segments@.len() == segment_count(self.desc.n_layers as int),
            forall|k: int|
                0 <= k < segments@.len() ==> steps((#[trigger] segments@[k])@) == segment_steps(
                    self.desc,
                    self.scales@,
                    self.shape(m_pad as int, n_real as int),
                    self.int8,
                    mode,
                    k,
                ),
    {
        let c = ChunkShape { m_pad, n_real, max_chunk: self.max_chunk };
        proof {
            lemma_shape_fits(self.desc, c);
        }
        record_prefill(&self.desc, &self.scales, c, self.int8, mode)
    }

    /// The segments of a full chunk without logits.
    pub fn record_prefill_chunk_plain(&self) -> (segments: Vec<Vec<Dispatch>>)
        requires
            self.wf(),
            0 < self.max_chunk,
        ensures
            segments@.len() == segment_count(self.desc.n_layers as int),
            forall|k: int|
                0 <= k < segments@.len() ==> steps((#[trigger] segments@[k])@) == segment_steps(
                    self.desc,
                    self.scales@,
                    self.shape(self.max_chunk as int, self.max_chunk as int),
                    self.int8,
                    LogitsMode::Nothing,
                    k,
                ),
    {
        self.record_prefill(self.max_chunk, self.max_chunk, LogitsMode::Nothing)
    }

    /// What prefilling `n` tokens asks of the device, ending with the logits
    /// of the last of them.
    pub fn prefill(&self, n: usize) -> (actions: Vec<Action>)
        requires
            self.wf(),
            0 < self.max_chunk,
            0 < n,
            self.pos + n <= self.global_cap,
            self.pos + n <= u32::MAX,
        ensures
            actions@ == self.prefill_run(n as int).actions,
    {
        let chunks = prefill_chunks(n, self.max_chunk, true);
        let mut run = self.runner();
        let ghost had = run@;
        let mut k: usize = 0;
        while k < chunks.len()
            invariant
                self.wf(),
                0 < self.max_chunk,
                self.pos + n <= u32::MAX,
                0 < n,
                k <= chunks@.len() == chunk_count(n as int, self.max_chunk as int),
                forall|k: int|
                    0 <= k < chunks@.len() ==> #[trigger] chunks@[k] == chunk_of(
                        n as int,
                        self.max_chunk as int,
                        k,
                        true,
                    ),
                run@ == had.with_chunks(self.pos as int, n as int, self.max_chunk as int, k as nat),
            decreases chunks@.len() - k,
        {
            proof {
                lemma_chunks_cover(n as int, self.max_chunk as int, k as int, true);
            }
            run.chunk(self.pos, chunks[k]);
            k = k + 1;
        }
        run.act(Action::ReadLogits);
        run.actions
    }

    /// The same for the logits of every position; it asks for room for them
    /// the first time.
    pub fn prefill_all_logits(&self, n: usize) -> (actions: Vec<Action>)
        requires
            self.wf(),
            0 < self.max_chunk,
            self.pos + n <= u32::MAX,
        ensures
            actions@ == self.all_logits_run(n as int).actions,
    {
        let chunks = prefill_chunks(n, self.max_chunk, false);
        let mut run = self.runner();
        if !self.logits_all {
            run.act(Action::AllocateLogits);
        }
        let ghost had = run@;
        let vocab: u64 = self.desc.vocab_size as u64;
        let mut k: usize = 0;
        while k < chunks.len()
            invariant
                self.wf(),
                0 < self.max_chunk,
                self.pos + n <= u32::MAX,
                vocab == self.desc.vocab_size,
                k <= chunks@.len() == chunk_count(n as int, self.max_chunk as int),
                forall|k: int|
                    0 <= k < chunks@.len() ==> #[trigger] chunks@[k] == chunk_of(
                        n as int,
                        self.max_chunk as int,
                        k,
                        false,
                    ),
                run@ == had.with_all_chunks(
                    self.pos as int,
                    n as int,
                    self.max_chunk as int,
                    vocab as int,
                    k as nat,
                ),
            decreases chunks@.len() - k,
        {
            proof {
                lemma_chunks_cover(n as int, self.max_chunk as int, k as int, false);
            }
            let c = chunks[k];
            assert(c.n_real * vocab <= self.max_chunk * self.desc.vocab_size) by (nonlinear_arith)
                requires
                    c.n_real <= self.max_chunk,
                    vocab == self.desc.vocab_size,
            ;
            run.chunk(self.pos, c);
            run.submit(GraphKey::NormAll(c.m_pad));
            run.batches(c.n_real);
            run.act(Action::TakeLogits(c.n_real as u64 * vocab));
            k = k + 1;
        }
        run.actions
    }

    /// What one decode step asks of the device.
    pub fn decode_step(&self, token: u32) -> (actions: Vec<Action>)
        ensures
            actions@ == seq![
                Action::StageToken { token, pos: self.pos },
                Action::Submit(GraphKey::Decode),
                Action::Advance(1),
                Action::ReadLogits,
            ],
    {
        vec![
            Action::StageToken { token, pos: self.pos },
            Action::Submit(GraphKey::Decode),
            Action::Advance(1),
            Action::ReadLogits,
        ]
    }

    pub open spec fn prefill_run(self, n: int) -> Run {
        let max = self.max_chunk as int;
        Run { actions: Seq::empty(), known: self.recorded@ }.with_chunks(
            self.pos as int,
            n,
            max,
            chunk_count(n, max) as nat,
        ).did(Action::ReadLogits)
    }

    pub open spec fn all_logits_run(self, n: int) -> Run {
        let max = self.max_chunk as int;
        let start = Run { actions: Seq::empty(), known: self.recorded@ };
        (if self.logits_all {
            start
        } else {
            start.did(Action::AllocateLogits)
        }).with_all_chunks(
            self.pos as int,
            n,
            max,
            self.desc.vocab_size as int,
            chunk_count(n, max) as nat,
        )
    }

    fn runner(&self) -> (run: Runner)
        ensures
            run@ == (Run { actions: Seq::empty(), known: self.recorded@ }),
    {
        let mut known: Vec<GraphKey> = Vec::new();
        let mut i: usize = 0;
        while i < self.recorded.len()
            invariant
                i <= self.recorded@.len(),
                known@ == self.recorded@.take(i as int),
            decreases self.recorded@.len() - i,
        {
            known.push(self.recorded[i]);
            i = i + 1;
            assert(known@ =~= self.recorded@.take(i as int));
        }
        assert(known@ =~= self.recorded@);
        Runner { actions: Vec::new(), known }
    }
}

/// A chunk no larger than what fits is well formed.
proof fn lemma_shape_fits(d: ModelDesc, c: ChunkShape)
    requires
        d.wf(),
        chunks_fit(d, c.max_chunk as int),
        c.m_pad % 64 == 0,
        0 < c.n_real <= c.m_pad <= c.max_chunk,
    ensures
        c.wf(d),
{
    let (a, b) = (c.m_pad as int, c.max_chunk as int);
    lemma_less(a, b, d.sliding.n_kv_heads as int);
    lemma_less(a, b, d.global.n_kv_heads as int);
    let ls = d.live_pairs(LayerKind::Sliding);
    let lg = d.live_pairs(LayerKind::Global);
    lemma_less(a * 32, b * 32, ls);
    lemma_less(a * 32, b * 32, lg);
    lemma_less(a * d.sliding.n_kv_heads, b * d.sliding.n_kv_heads, ls);
    lemma_less(a * d.global.n_kv_heads, b * d.global.n_kv_heads, lg);
    let ks = d.kv_dim(LayerKind::Sliding);
    let kg = d.kv_dim(LayerKind::Global);
    lemma_positive(d.sliding.n_kv_heads as int, d.sliding.head_dim as int);
    lemma_positive(d.global.n_kv_heads as int, d.global.head_dim as int);
    lemma_less(c.n_real as int, b, ks);
    lemma_less(c.n_real as int, b, kg);
}

proof fn lemma_less(a: int, b: int, w: int)
    requires
        0 <= a <= b,
        0 <= w,
    ensures
        0 <= a * w <= b * w,
{
    assert(0 <= a * w <= b * w) by (nonlinear_arith)
        requires
            0 <= a <= b,
            0 <= w,
    ;
}

proof fn lemma_positive(a: int, b: int)
    requires
        0 <= a,
        0 <= b,
    ensures
        0 <= a * b,
{
    assert(0 <= a * b) by (nonlinear_arith)
        requires
            0 <= a,
            0 <= b,
    ;
}

/// What actions change on the host.
pub struct HostState {
    pub pos: int,
    pub recorded: Seq<GraphKey>,
    pub logits_all: bool,
}

impl HostState {
    pub open spec fn did(self, action: Action) -> HostState {
        match action {
            Action::Record(key) => HostState { recorded: self.recorded.push(key), ..self },
            Action::Advance(n) => HostState { pos: self.pos + n, ..self },
            Action::AllocateLogits => HostState { logits_all: true, ..self },
            _ => self,
        }
    }

    pub open spec fn did_all(self, actions: Seq<Action>) -> HostState
        decreases actions.len(),
    {
        if actions.len() == 0 {
            self
        } else {
            self.did_all(actions.drop_last()).did(actions.last())
        }
    }

    /// Whether an action makes sense now: a graph is recorded when it is new
    /// and its shape fits chunks of `max_chunk` rows, submitted when it has
    /// been recorded, and inputs are staged for the current position.
    pub open spec fn allows(self, max_chunk: int, action: Action) -> bool {
        match action {
            Action::AllocateLogits => !self.logits_all,
            Action::Record(key) => !self.recorded.contains(key) && key_fits(max_chunk, key),
            Action::StageChunk { start, len, pos } => pos == self.pos && 0 < len <= max_chunk,
            Action::StageToken { token, pos } => pos == self.pos,
            Action::Submit(key) => key == GraphKey::Decode || self.recorded.contains(key),
            Action::Advance(n) => self.pos + n <= u32::MAX,
            Action::ReadLogits => true,
            Action::TakeLogits(n) => self.logits_all,
        }
    }

    pub open spec fn allows_all(self, max_chunk: int, actions: Seq<Action>) -> bool
        decreases actions.len(),
    {
        actions.len() == 0 || {
            &&& self.allows_all(max_chunk, actions.drop_last())
            &&& self.did_all(actions.drop_last()).allows(max_chunk, actions.last())
        }
    }
}

/// Whether the graph of a key can be recorded over chunks of `max_chunk` rows.
pub open spec fn key_fits(max_chunk: int, key: GraphKey) -> bool {
    match key {
        GraphKey::Prefill(m_pad, n_real, mode) => m_pad % 64 == 0 && 0 < n_real <= m_pad
            <= max_chunk,
        GraphKey::NormAll(m_pad) => m_pad <= max_chunk,
        GraphKey::LogitsBatch(start, len) => start + len <= max_chunk,
        GraphKey::Decode => true,
    }
}

impl GpuModel {
    pub open spec fn state(self) -> HostState {
        HostState {
            pos: self.pos as int,
            recorded: self.recorded@,
            logits_all: self.logits_all,
        }
    }

    /// Takes note of an action that the device has done.
    pub fn done(&mut self, action: Action)
        requires
            old(self).wf(),
            old(self).state().allows(old(self).max_chunk as int, action),
        ensures
            final(self).wf(),
            final(self).state() == old(self).state().did(action),
            final(self).desc == old(self).desc,
            final(self).scales == old(self).scales,
            final(self).int8 == old(self).int8,
            final(self).max_chunk == old(self).max_chunk,
            final(self).global_cap == old(self).global_cap,
    {
        match action {
            Action::Record(key) => {
                self.recorded.push(key);
            },
            Action::Advance(n) => {
                self.pos = self.pos + n;
            },
            Action::AllocateLogits => {
                self.logits_all = true;
            },
            _ => {},
        }
    }

    /// On to the next position, once a token is fully processed.
    pub fn advance(&mut self)
        requires
            old(self).pos < u32::MAX,
        ensures
            *final(self) == (GpuModel { pos: (old(self).pos + 1) as u32, ..*old(self) }),
    {
        self.pos = self.pos + 1;
    }

    /// Back to position 0. What the stores hold is stale then, and masked by
    /// their lengths until it is overwritten.
    pub fn reset(&mut self)
        ensures
            *final(self) == (GpuModel { pos: 0, ..*old(self) }),
    {
        self.pos = 0;
    }

    /// The step words for one token at the current position.
    pub fn stage_token(&self) -> (s: StepState)
        requires
            self.pos < u32::MAX,
            self.desc.sliding_window <= u32::MAX,
        ensures
            s.pos == self.pos,
            s.kv_len_sliding == (if self.pos + 1 < self.desc.sliding_window {
                self.pos + 1
            } else {
                self.desc.sliding_window as int
            }),
            s.kv_len_global == self.pos + 1,
            s.q0 == 0,
    {
        decode_step_state(self.pos, self.desc.sliding_window as u32)
    }

    /// The step words for a chunk, and the positions of its `n` tokens.
    pub fn stage_prefill_chunk(&self, n: usize) -> (r: (StepState, Vec<u32>))
        requires
            self.pos + n <= u32::MAX,
        ensures
            r.0 == (StepState { pos: self.pos, kv_len_sliding: 0, kv_len_global: 0, q0: self.pos }),
            (r.1)@ == Seq::new(n as nat, |i: int| (self.pos + i) as u32),
    {
        (prefill_step_state(self.pos), chunk_positions(self.pos, n as u32))
    }

    /// The activation that a tap name stands for.
    pub fn read_prefill_tap(&self, name: &str, sliding: bool) -> (r: Result<Slot, String>)
        ensures
            match tap_slot(
                name@,
                if sliding {
                    LayerKind::Sliding
                } else {
                    LayerKind::Global
                },
            ) {
                Some(slot) => r == Ok::<Slot, String>(slot),
                None => r matches Err(e) && e@ == unknown_tap(name@),
            },
    {
        prefill_tap(
            name,
            if sliding {
                LayerKind::Sliding
            } else {
                LayerKind::Global
            },
        )
    }

    /// The graphs behind a key.
    pub open spec fn graphs(self, key: GraphKey) -> Seq<Seq<Step>> {
        match key {
            GraphKey::Prefill(m_pad, n_real, mode) => Seq::new(
                segment_count(self.desc.n_layers as int) as nat,
                |k: int|
                    segment_steps(
                        self.desc,
                        self.scales@,
                        self.shape(m_pad as int, n_real as int),
                        self.int8,
                        mode,
                        k,
                    ),
            ),
            GraphKey::NormAll(m_pad) => seq![
                seq![
                    norm(
                        Kernel::Rms5376,
                        Buffer::Prefill(Slot::X),
                        Buffer::OutputNorm,
                        Buffer::Prefill(Slot::Xn),
                        m_pad as int,
                    ),
                ],
            ],
            GraphKey::LogitsBatch(start, len) => seq![
                Seq::new(len as nat, |k: int| row_logits(self.desc, start + k)),
            ],
            GraphKey::Decode => seq![
                decode_layers(self.desc, self.scales@, 0, self.desc.n_layers as int)
                    + decode_logits(self.desc),
            ],
        }
    }

    /// The dispatches to record for a key, one list for each submission.
    pub fn graph_of(&self, key: GraphKey) -> (plans: Vec<Vec<Dispatch>>)
        requires
            self.wf(),
            key_fits(self.max_chunk as int, key),
        ensures
            plans@.len() == self.graphs(key).len(),
            forall|k: int|
                0 <= k < plans@.len() ==> steps((#[trigger] plans@[k])@) == self.graphs(key)[k],
    {
        match key {
            GraphKey::Prefill(m_pad, n_real, mode) => self.record_prefill(m_pad, n_real, mode),
            GraphKey::NormAll(m_pad) => vec![norm_all(m_pad)],
            GraphKey::LogitsBatch(start, len) => {
                assert((start + len) * HIDDEN <= self.max_chunk * FFN) by (nonlinear_arith)
                    requires
                        start + len <= self.max_chunk,
                        HIDDEN <= FFN,
                ;
                assert((start + len) * self.desc.vocab_size <= self.max_chunk * self.desc.vocab_size)
                    by (nonlinear_arith)
                    requires
                        start + len <= self.max_chunk,
                        self.desc.vocab_size >= 0,
                ;
                vec![logits_batch(&self.desc, start, len)]
            },
            GraphKey::Decode => vec![self.record(0, self.desc.n_layers, true)],
        }
    }
}

/// A run whose actions all make sense from `start` on, after which the host is
/// at `pos` and knows the graphs of the run.
spec fn sound(start: HostState, max_chunk: int, run: Run, pos: int, logits_all: bool) -> bool {
    &&& start.allows_all(max_chunk, run.actions)
    &&& start.did_all(run.actions) == (HostState { pos, recorded: run.known, logits_all })
}

proof fn lemma_did(
    start: HostState,
    max_chunk: int,
    run: Run,
    pos: int,
    logits_all: bool,
    action: Action,
)
    requires
        sound(start, max_chunk, run, pos, logits_all),
        action !is Record,
        (HostState { pos, recorded: run.known, logits_all }).allows(max_chunk, action),
    ensures
        ({
            let after = (HostState { pos, recorded: run.known, logits_all }).did(action);
            sound(start, max_chunk, run.did(action), after.pos, after.logits_all)
        }),
{
    let all = run.actions.push(action);
    assert(all.drop_last() =~= run.actions);
    assert(all.last() == action);
}

proof fn lemma_ensured(
    start: HostState,
    max_chunk: int,
    run: Run,
    pos: int,
    logits_all: bool,
    key: GraphKey,
)
    requires
        sound(start, max_chunk, run, pos, logits_all),
        key_fits(max_chunk, key),
    ensures
        sound(start, max_chunk, run.ensured(key), pos, logits_all),
        run.ensured(key).known.contains(key),
{
    if !run.known.contains(key) {
        let all = run.actions.push(Action::Record(key));
        assert(all.drop_last() =~= run.actions);
        assert(all.last() == Action::Record(key));
        assert(run.known.push(key)[run.known.len() as int] == key);
    }
}

proof fn lemma_chunk_sound(
    start: HostState,
    max_chunk: int,
    run: Run,
    logits_all: bool,
    pos: int,
    c: Chunk,
)
    requires
        sound(start, max_chunk, run, pos + c.start, logits_all),
        0 <= pos,
        pos + c.start + c.n_real <= u32::MAX,
        c.m_pad % 64 == 0,
        0 < c.n_real <= c.m_pad <= max_chunk,
    ensures
        sound(
            start,
            max_chunk,
            run.with_chunk(pos, c),
            pos + c.start + c.n_real,
            logits_all,
        ),
{
    let key = GraphKey::Prefill(c.m_pad, c.n_real, c.mode);
    let at = pos + c.start;
    lemma_ensured(start, max_chunk, run, at, logits_all, key);
    let a = run.ensured(key);
    let stage = Action::StageChunk { start: c.start, len: c.n_real, pos: at as u32 };
    lemma_did(start, max_chunk, a, at, logits_all, stage);
    lemma_did(start, max_chunk, a.did(stage), at, logits_all, Action::Submit(key));
    lemma_did(
        start,
        max_chunk,
        a.did(stage).did(Action::Submit(key)),
        at,
        logits_all,
        Action::Advance(c.n_real as u32),
    );
}

proof fn lemma_chunks_sound(
    start: HostState,
    max_chunk: int,
    run: Run,
    logits_all: bool,
    len: int,
    n: nat,
)
    requires
        sound(start, max_chunk, run, start.pos, logits_all),
        0 <= start.pos,
        0 <= len,
        start.pos + len <= u32::MAX,
        0 < max_chunk,
        max_chunk + 63 <= usize::MAX,
        max_chunk % 64 == 0,
        n <= chunk_count(len, max_chunk),
    ensures
        sound(
            start,
            max_chunk,
            run.with_chunks(start.pos, len, max_chunk, n),
            start.pos + (if n < chunk_count(len, max_chunk) {
                chunk_of(len, max_chunk, n as int, true).start as int
            } else {
                len
            }),
            logits_all,
        ),
    decreases n,
{
    let count = chunk_count(len, max_chunk);
    if n == 0 {
        lemma_no_chunks(len, max_chunk);
        if 0 < count {
            lemma_chunks_cover(len, max_chunk, 0, true);
        }
    } else {
        let k = (n - 1) as nat;
        lemma_chunks_sound(start, max_chunk, run, logits_all, len, k);
        lemma_chunks_cover(len, max_chunk, k as int, true);
        lemma_chunk_sound(
            start,
            max_chunk,
            run.with_chunks(start.pos, len, max_chunk, k),
            logits_all,
            start.pos,
            chunk_of(len, max_chunk, k as int, true),
        );
    }
}

/// Nothing makes no chunk.
proof fn lemma_no_chunks(len: int, max_chunk: int)
    requires
        0 <= len,
        0 < max_chunk,
    ensures
        chunk_count(len, max_chunk) >= 0,
        chunk_count(len, max_chunk) == 0 ==> len == 0,
{
    let a = len + max_chunk - 1;
    vstd::arithmetic::div_mod::lemma_fundamental_div_mod(a, max_chunk);
    vstd::arithmetic::div_mod::lemma_div_pos_is_pos(a, max_chunk);
    assert(max_chunk * 0 == 0) by (nonlinear_arith);
}

/// Prefilling makes sense action by action: no graph is recorded twice, none
/// is submitted before it is recorded, chunks are staged where the one before
/// ended. When all is done the position has moved by the length of the prompt.
pub proof fn lemma_prefill_runs(m: GpuModel, n: int)
    requires
        m.wf(),
        0 < m.max_chunk,
        0 < n,
        m.pos + n <= u32::MAX,
    ensures
        m.state().allows_all(m.max_chunk as int, m.prefill_run(n).actions),
        m.state().did_all(m.prefill_run(n).actions) == (HostState {
            pos: m.pos + n,
            recorded: m.prefill_run(n).known,
            logits_all: m.logits_all,
        }),
{
    let max = m.max_chunk as int;
    let run = Run { actions: Seq::empty(), known: m.recorded@ };
    let count = chunk_count(n, max);
    lemma_no_chunks(n, max);
    lemma_chunks_sound(m.state(), max, run, m.logits_all, n, count as nat);
    lemma_did(
        m.state(),
        max,
        run.with_chunks(m.pos as int, n, max, count as nat),
        m.pos + n,
        m.logits_all,
        Action::ReadLogits,
    );
}

proof fn lemma_submitted(
    start: HostState,
    max_chunk: int,
    run: Run,
    pos: int,
    logits_all: bool,
    key: GraphKey,
)
    requires
        sound(start, max_chunk, run, pos, logits_all),
        key_fits(max_chunk, key),
    ensures
        sound(start, max_chunk, run.submitted(key), pos, logits_all),
{
    lemma_ensured(start, max_chunk, run, pos, logits_all, key);
    lemma_did(start, max_chunk, run.ensured(key), pos, logits_all, Action::Submit(key));
}

proof fn lemma_batches_sound(
    start: HostState,
    max_chunk: int,
    run: Run,
    pos: int,
    logits_all: bool,
    rows: int,
    n: nat,
)
    requires
        sound(start, max_chunk, run, pos, logits_all),
        0 <= rows <= max_chunk <= usize::MAX,
        n <= (rows + 31) / 32,
    ensures
        sound(start, max_chunk, run.with_batches(rows, n), pos, logits_all),
    decreases n,
{
    if n > 0 {
        let k = (n - 1) as nat;
        lemma_batches_sound(start, max_chunk, run, pos, logits_all, rows, k);
        let (a, b) = batch_of(rows, k as int);
        lemma_submitted(
            start,
            max_chunk,
            run.with_batches(rows, k),
            pos,
            logits_all,
            GraphKey::LogitsBatch(a as usize, b as usize),
        );
    }
}

proof fn lemma_all_chunks_sound(
    start: HostState,
    max_chunk: int,
    run: Run,
    len: int,
    vocab: int,
    n: nat,
)
    requires
        sound(start, max_chunk, run, start.pos, true),
        0 <= start.pos,
        0 <= len,
        start.pos + len <= u32::MAX,
        0 < max_chunk,
        max_chunk + 63 <= usize::MAX,
        max_chunk % 64 == 0,
        n <= chunk_count(len, max_chunk),
    ensures
        sound(
            start,
            max_chunk,
            run.with_all_chunks(start.pos, len, max_chunk, vocab, n),
            start.pos + (if n < chunk_count(len, max_chunk) {
                chunk_of(len, max_chunk, n as int, false).start as int
            } else {
                len
            }),
            true,
        ),
    decreases n,
{
    let count = chunk_count(len, max_chunk);
    if n == 0 {
        lemma_no_chunks(len, max_chunk);
        if 0 < count {
            lemma_chunks_cover(len, max_chunk, 0, false);
        }
    } else {
        let k = (n - 1) as nat;
        lemma_all_chunks_sound(start, max_chunk, run, len, vocab, k);
        lemma_chunks_cover(len, max_chunk, k as int, false);
        let c = chunk_of(len, max_chunk, k as int, false);
        let had = run.with_all_chunks(start.pos, len, max_chunk, vocab, k);
        let at = start.pos + c.start + c.n_real;
        lemma_chunk_sound(start, max_chunk, had, true, start.pos, c);
        let a = had.with_chunk(start.pos, c);
        lemma_submitted(start, max_chunk, a, at, true, GraphKey::NormAll(c.m_pad));
        let b = a.submitted(GraphKey::NormAll(c.m_pad));
        let batches = ((c.n_real + 31) / 32) as nat;
        lemma_batches_sound(start, max_chunk, b, at, true, c.n_real as int, batches);
        lemma_did(
            start,
            max_chunk,
            b.with_batches(c.n_real as int, batches),
            at,
            true,
            Action::TakeLogits((c.n_real * vocab) as u64),
        );
    }
}

/// The same of prefilling with the logits of every position; the room for
/// them is allocated once, before they are read.
pub proof fn lemma_all_logits_runs(m: GpuModel, n: int)
    requires
        m.wf(),
        0 < m.max_chunk,
        0 <= n,
        m.pos + n <= u32::MAX,
    ensures
        m.state().allows_all(m.max_chunk as int, m.all_logits_run(n).actions),
        m.state().did_all(m.all_logits_run(n).actions) == (HostState {
            pos: m.pos + n,
            recorded: m.all_logits_run(n).known,
            logits_all: true,
        }),
{
    let max = m.max_chunk as int;
    let run = Run { actions: Seq::empty(), known: m.recorded@ };
    let first = if m.logits_all {
        run
    } else {
        run.did(Action::AllocateLogits)
    };
    if !m.logits_all {
        lemma_did(m.state(), max, run, m.pos as int, false, Action::AllocateLogits);
    }
    lemma_no_chunks(n, max);
    lemma_all_chunks_sound(
        m.state(),
        max,
        first,
        n,
        m.desc.vocab_size as int,
        chunk_count(n, max) as nat,
    );
}

/// What actions do besides recording.
pub open spec fn work(actions: Seq<Action>) -> Seq<Action>
    decreases actions.len(),
{
    if actions.len() == 0 {
        Seq::empty()
    } else {
        let head = work(actions.drop_last());
        match actions.last() {
            Action::Record(_) => head,
            a => head.push(a),
        }
    }
}

proof fn lemma_work(actions: Seq<Action>, action: Action)
    ensures
        work(actions.push(action)) == (match action {
            Action::Record(_) => work(actions),
            a => work(actions).push(a),
        }),
{
    assert(actions.push(action).drop_last() =~= actions);
}

proof fn lemma_same_chunk(a: Run, b: Run, pos: int, c: Chunk)
    requires
        work(a.actions) == work(b.actions),
    ensures
        work(a.with_chunk(pos, c).actions) == work(b.with_chunk(pos, c).actions),
{
    let key = GraphKey::Prefill(c.m_pad, c.n_real, c.mode);
    let stage = Action::StageChunk { start: c.start, len: c.n_real, pos: (pos + c.start) as u32 };
    lemma_work(a.actions, Action::Record(key));
    lemma_work(b.actions, Action::Record(key));
    let (x, y) = (a.ensured(key).actions, b.ensured(key).actions);
    lemma_work(x, stage);
    lemma_work(y, stage);
    lemma_work(x.push(stage), Action::Submit(key));
    lemma_work(y.push(stage), Action::Submit(key));
    lemma_work(x.push(stage).push(Action::Submit(key)), Action::Advance(c.n_real as u32));
    lemma_work(y.push(stage).push(Action::Submit(key)), Action::Advance(c.n_real as u32));
}

proof fn lemma_same_chunks(a: Run, b: Run, pos: int, len: int, max_chunk: int, n: nat)
    requires
        work(a.actions) == work(b.actions),
    ensures
        work(a.with_chunks(pos, len, max_chunk, n).actions) == work(
            b.with_chunks(pos, len, max_chunk, n).actions,
        ),
    decreases n,
{
    if n > 0 {
        let k = (n - 1) as nat;
        lemma_same_chunks(a, b, pos, len, max_chunk, k);
        lemma_same_chunk(
            a.with_chunks(pos, len, max_chunk, k),
            b.with_chunks(pos, len, max_chunk, k),
            pos,
            chunk_of(len, max_chunk, k as int, true),
        );
    }
}

/// A prefill replays: from the same position the same length stages and
/// submits the same, in the same order, whatever was recorded before.
pub proof fn lemma_prefill_replays(a: GpuModel, b: GpuModel, n: int)
    requires
        a.pos == b.pos,
        a.max_chunk == b.max_chunk,
    ensures
        work(a.prefill_run(n).actions) == work(b.prefill_run(n).actions),
{
    let max = a.max_chunk as int;
    let count = chunk_count(n, max) as nat;
    let x = Run { actions: Seq::empty(), known: a.recorded@ };
    let y = Run { actions: Seq::empty(), known: b.recorded@ };
    lemma_same_chunks(x, y, a.pos as int, n, max, count);
    lemma_work(x.with_chunks(a.pos as int, n, max, count).actions, Action::ReadLogits);
    lemma_work(y.with_chunks(a.pos as int, n, max, count).actions, Action::ReadLogits);
}

proof fn lemma_work_ensured(run: Run, key: GraphKey)
    ensures
        work(run.ensured(key).actions) == work(run.actions),
{
    lemma_work(run.actions, Action::Record(key));
}

proof fn lemma_work_submitted(run: Run, key: GraphKey)
    ensures
        work(run.submitted(key).actions) == work(run.actions).push(Action::Submit(key)),
{
    lemma_work_ensured(run, key);
    lemma_work(run.ensured(key).actions, Action::Submit(key));
}

proof fn lemma_work_chunk(run: Run, pos: int, c: Chunk)
    ensures
        work(run.with_chunk(pos, c).actions) == work(run.actions) + seq![
            Action::StageChunk { start: c.start, len: c.n_real, pos: (pos + c.start) as u32 },
            Action::Submit(GraphKey::Prefill(c.m_pad, c.n_real, c.mode)),
            Action::Advance(c.n_real as u32),
        ],
{
    let key = GraphKey::Prefill(c.m_pad, c.n_real, c.mode);
    let stage = Action::StageChunk { start: c.start, len: c.n_real, pos: (pos + c.start) as u32 };
    lemma_work_ensured(run, key);
    let x = run.ensured(key).actions;
    lemma_work(x, stage);
    lemma_work(x.push(stage), Action::Submit(key));
    lemma_work(x.push(stage).push(Action::Submit(key)), Action::Advance(c.n_real as u32));
    assert(work(run.with_chunk(pos, c).actions) =~= work(run.actions) + seq![
        stage,
        Action::Submit(key),
        Action::Advance(c.n_real as u32),
    ]);
}

proof fn lemma_work_batches(run: Run, rows: int, n: nat)
    ensures
        work(run.with_batches(rows, n).actions) == work(run.actions) + Seq::new(
            n,
            |k: int|
                Action::Submit(
                    GraphKey::LogitsBatch(
                        (k * 32) as usize,
                        (if rows - k * 32 < 32 {
                            rows - k * 32
                        } else {
                            32
                        }) as usize,
                    ),
                ),
        ),
    decreases n,
{
    let f = |k: int|
        Action::Submit(
            GraphKey::LogitsBatch(
                (k * 32) as usize,
                (if rows - k * 32 < 32 {
                    rows - k * 32
                } else {
                    32
                }) as usize,
            ),
        );
    if n > 0 {
        let m = (n - 1) as nat;
        lemma_work_batches(run, rows, m);
        let (start, len) = batch_of(rows, n - 1);
        lemma_work_submitted(
            run.with_batches(rows, m),
            GraphKey::LogitsBatch(start as usize, len as usize),
        );
        assert(Seq::new(n, f) =~= Seq::new(m, f).push(f(n - 1)));
        assert(work(run.with_batches(rows, n).actions) =~= work(run.actions) + Seq::new(n, f));
    } else {
        assert(work(run.actions) + Seq::new(n, f) =~= work(run.actions));
    }
}

/// What chunk `k` of `len` tokens asks for besides recording: its tokens are
/// staged at their own positions, the layers run over its rows, which are as
/// many as its tokens rounded up to 64, and its tokens are counted.
pub open spec fn chunk_work(pos: int, len: int, max_chunk: int, k: int, logits: bool) -> Seq<Action> {
    let start = k * max_chunk;
    let rest = len - start;
    let n_real = if rest < max_chunk {
        rest
    } else {
        max_chunk
    };
    seq![
        Action::StageChunk {
            start: start as usize,
            len: n_real as usize,
            pos: (pos + start) as u32,
        },
        Action::Submit(
            GraphKey::Prefill(
                ((n_real + 63) / 64 * 64) as usize,
                n_real as usize,
                if logits && start + n_real == len {
                    LogitsMode::Last
                } else {
                    LogitsMode::Nothing
                },
            ),
        ),
        Action::Advance(n_real as u32),
    ]
}

proof fn lemma_work_is(pos: int, len: int, max_chunk: int, k: int, logits: bool)
    requires
        0 <= len <= usize::MAX,
        0 < max_chunk,
        max_chunk + 63 <= usize::MAX,
        max_chunk % 64 == 0,
        0 <= k < chunk_count(len, max_chunk),
    ensures
        ({
            let c = chunk_of(len, max_chunk, k, logits);
            chunk_work(pos, len, max_chunk, k, logits) == seq![
                Action::StageChunk { start: c.start, len: c.n_real, pos: (pos + c.start) as u32 },
                Action::Submit(GraphKey::Prefill(c.m_pad, c.n_real, c.mode)),
                Action::Advance(c.n_real as u32),
            ]
        }),
{
    lemma_chunks_cover(len, max_chunk, k, logits);
    let c = chunk_of(len, max_chunk, k, logits);
    assert(0 <= k * max_chunk) by (nonlinear_arith)
        requires
            0 <= k,
            0 < max_chunk,
    ;
    assert(k * max_chunk < len) by {
        let a = len + max_chunk - 1;
        let total = chunk_count(len, max_chunk);
        vstd::arithmetic::div_mod::lemma_fundamental_div_mod(a, max_chunk);
        assert(k * max_chunk <= total * max_chunk - max_chunk) by (nonlinear_arith)
            requires
                k <= total - 1,
                max_chunk > 0,
        ;
        assert(max_chunk * total == total * max_chunk) by (nonlinear_arith);
    }
    assert(chunk_work(pos, len, max_chunk, k, logits) =~= seq![
        Action::StageChunk { start: c.start, len: c.n_real, pos: (pos + c.start) as u32 },
        Action::Submit(GraphKey::Prefill(c.m_pad, c.n_real, c.mode)),
        Action::Advance(c.n_real as u32),
    ]);
}

#[verifier::rlimit(40)]
proof fn lemma_work_chunks(run: Run, pos: int, len: int, max_chunk: int, n: nat, k: int)
    requires
        0 <= len <= usize::MAX,
        0 < max_chunk,
        max_chunk + 63 <= usize::MAX,
        max_chunk % 64 == 0,
        n <= chunk_count(len, max_chunk),
    ensures
        work(run.with_chunks(pos, len, max_chunk, n).actions).len() == work(run.actions).len() + 3
            * n,
        0 <= k < n ==> ({
            let base = work(run.actions).len() + 3 * k;
            work(run.with_chunks(pos, len, max_chunk, n).actions).subrange(base, base + 3)
                == chunk_work(pos, len, max_chunk, k, true)
        }),
    decreases n,
{
    if n > 0 {
        let m = (n - 1) as nat;
        lemma_work_chunks(run, pos, len, max_chunk, m, k);
        let before = run.with_chunks(pos, len, max_chunk, m);
        let c = chunk_of(len, max_chunk, n - 1, true);
        lemma_work_chunk(before, pos, c);
        lemma_work_is(pos, len, max_chunk, n - 1, true);
        let all = work(run.with_chunks(pos, len, max_chunk, n).actions);
        let head = work(before.actions);
        assert(all == head + chunk_work(pos, len, max_chunk, n - 1, true));
        if 0 <= k < n {
            let base = work(run.actions).len() + 3 * k;
            if k < m {
                assert(all.subrange(base, base + 3) =~= head.subrange(base, base + 3));
            } else {
                assert(all.subrange(base, base + 3) =~= chunk_work(
                    pos,
                    len,
                    max_chunk,
                    n - 1,
                    true,
                ));
            }
        }
    }
}

/// Prefilling does, besides recording, the work of every chunk, one after the
/// other, each once; then the last token's logits are read.
#[verifier::rlimit(40)]
pub proof fn lemma_prefill_work(m: GpuModel, n: int, k: int)
    requires
        m.wf(),
        0 < m.max_chunk,
        0 < n <= usize::MAX,
        0 <= k,
        k * m.max_chunk < n,
    ensures
        ({
            let actions = work(m.prefill_run(n).actions);
            let count = (n + m.max_chunk - 1) / m.max_chunk as int;
            &&& actions.len() == 3 * count + 1
            &&& k < count
            &&& actions.subrange(3 * k, 3 * k + 3) == chunk_work(
                m.pos as int,
                n,
                m.max_chunk as int,
                k,
                true,
            )
            &&& actions.last() == Action::ReadLogits
        }),
{
    let max = m.max_chunk as int;
    let run = Run { actions: Seq::empty(), known: m.recorded@ };
    let count = chunk_count(n, max);
    lemma_no_chunks(n, max);
    assert(k < count) by {
        let a = n + max - 1;
        vstd::arithmetic::div_mod::lemma_fundamental_div_mod(a, max);
        if k >= count {
            assert(k * max >= count * max && max * count == count * max) by (nonlinear_arith)
                requires
                    k >= count,
                    max > 0,
            ;
        }
    }
    lemma_work_chunks(run, m.pos as int, n, max, count as nat, k);
    let chunks = run.with_chunks(m.pos as int, n, max, count as nat);
    lemma_work(chunks.actions, Action::ReadLogits);
    let all = work(m.prefill_run(n).actions);
    assert(all == work(chunks.actions).push(Action::ReadLogits));
    assert(all.subrange(3 * k, 3 * k + 3) =~= work(chunks.actions).subrange(3 * k, 3 * k + 3));
}

/// Prefilling with the logits of every position adds to a chunk's work, which
/// then asks for no logits of its own, the final norm over its rows, the LM
/// head over all of its real rows in batches of 32, and the reading of as many
/// logits as these have; chunk after chunk.
#[verifier::rlimit(40)]
pub proof fn lemma_all_logits_work(m: GpuModel, run: Run, n: int, k: nat)
    requires
        m.wf(),
        0 < m.max_chunk,
        0 <= n <= usize::MAX,
        k < chunk_count(n, m.max_chunk as int),
    ensures
        ({
            let max = m.max_chunk as int;
            let pos = m.pos as int;
            let vocab = m.desc.vocab_size as int;
            let rows = if n - k * max < max {
                n - k * max
            } else {
                max
            };
            let before = work(run.with_all_chunks(pos, n, max, vocab, k).actions);
            work(run.with_all_chunks(pos, n, max, vocab, k + 1).actions) == before + chunk_work(
                pos,
                n,
                max,
                k as int,
                false,
            ) + seq![Action::Submit(GraphKey::NormAll(((rows + 63) / 64 * 64) as usize))] + Seq::new(
                ((rows + 31) / 32) as nat,
                |b: int|
                    Action::Submit(
                        GraphKey::LogitsBatch(
                            (b * 32) as usize,
                            (if rows - b * 32 < 32 {
                                rows - b * 32
                            } else {
                                32
                            }) as usize,
                        ),
                    ),
            ) + seq![Action::TakeLogits((rows * vocab) as u64)]
        }),
        run.with_all_chunks(
            m.pos as int,
            n,
            m.max_chunk as int,
            m.desc.vocab_size as int,
            0,
        ).actions == run.actions,
{
    let max = m.max_chunk as int;
    let pos = m.pos as int;
    let vocab = m.desc.vocab_size as int;
    let c = chunk_of(n, max, k as int, false);
    lemma_chunks_cover(n, max, k as int, false);
    lemma_work_is(pos, n, max, k as int, false);
    let before = run.with_all_chunks(pos, n, max, vocab, k);
    let a = before.with_chunk(pos, c);
    lemma_work_chunk(before, pos, c);
    lemma_work_submitted(a, GraphKey::NormAll(c.m_pad));
    let b = a.submitted(GraphKey::NormAll(c.m_pad));
    let count = ((c.n_real + 31) / 32) as nat;
    lemma_work_batches(b, c.n_real as int, count);
    let e = b.with_batches(c.n_real as int, count);
    lemma_work(e.actions, Action::TakeLogits((c.n_real * vocab) as u64));
    assert(0 <= k * max) by (nonlinear_arith)
        requires
            0 <= k,
            0 < max,
    ;
    let rows = if n - k * max < max {
        n - k * max
    } else {
        max
    };
    assert(rows > 0) by {
        let total = chunk_count(n, max);
        vstd::arithmetic::div_mod::lemma_fundamental_div_mod(n + max - 1, max);
        assert(k * max <= total * max - max && max * total == total * max) by (nonlinear_arith)
            requires
                k <= total - 1,
                max > 0,
        ;
    }
    assert(c.n_real == rows);
}

} // verus!
