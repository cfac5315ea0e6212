//! Sessions, generation and stop sequences, with a pretend device.

use super_gemma::model::{Action, GpuModel, GraphKey};
use super_gemma::session::{before_first, is_eos, Generation, Session, StopReason, EOS_TOKENS};
use super_gemma::shape::{Geometry, LayerKind, ModelDesc};
use super_gemma::stops::{tail_overlap, StopFilter};

fn model(cap: usize, max_chunk: usize) -> GpuModel {
    let desc = ModelDesc {
        n_layers: 2,
        layer_kinds: vec![LayerKind::Sliding, LayerKind::Global],
        sliding: Geometry {
            head_dim: 256,
            n_kv_heads: 16,
        },
        global: Geometry {
            head_dim: 512,
            n_kv_heads: 4,
        },
        sliding_window: 1024,
        vocab_size: 262_144,
        hidden_size: 5376,
        ffn_size: 21504,
        n_q_heads: 32,
    };
    GpuModel::new(desc, vec![0, 0], false, cap, max_chunk)
}

/// A device that remembers every token it has run and at which position.
#[derive(Clone, Debug, Default, PartialEq)]
struct Device {
    kv: Vec<u32>,
}

impl Device {
    fn run(&mut self, at: u32, tokens: &[u32]) {
        self.kv.truncate(at as usize);
        assert_eq!(self.kv.len(), at as usize);
        self.kv.extend_from_slice(tokens);
    }

    /// The next token, a function of everything resident.
    fn next(&self) -> u32 {
        let mut h = 17u64;
        for &t in &self.kv {
            h = h.wrapping_mul(31).wrapping_add(t as u64);
        }
        1000 + (h % 50_000) as u32
    }
}

fn perform(s: &mut Session, dev: &mut Device, suffix: &[u32], actions: Vec<Action>) {
    for a in actions {
        match a {
            Action::StageChunk { start, len, pos } => dev.run(pos, &suffix[start..start + len]),
            Action::StageToken { token, pos } => dev.run(pos, &[token]),
            _ => {}
        }
        s.done(a);
        assert_eq!(s.history().len(), s.host().pos as usize);
    }
}

fn request(
    s: &mut Session,
    dev: &mut Device,
    prompt: &[u32],
    max_tokens: usize,
) -> (Vec<u32>, StopReason) {
    let (resume, actions) = s.request(prompt);
    perform(s, dev, &prompt[resume..], actions);
    assert_eq!(s.history(), prompt);
    let mut g = Generation::new(max_tokens);
    if let Some(reason) = before_first(max_tokens) {
        return (g.into_tokens(), reason);
    }
    loop {
        let tok = dev.next();
        if let Some(reason) = g.take(tok, true) {
            return (g.into_tokens(), reason);
        }
        let actions = s.decode(tok);
        perform(s, dev, &[], actions);
        assert_eq!(s.history().last(), Some(&tok));
    }
}

/// "The capital of Finland is".
const P1: &[u32] = &[2, 818, 5279, 529, 37038, 563];

#[test]
fn session_resume_replay_and_divergence() {
    let mut dev = Device::default();
    let mut sess = Session::new(model(512, 64));

    // Turn 1.
    let (g1, r1) = request(&mut sess, &mut dev, P1, 6);
    assert!(matches!(r1, StopReason::MaxTokens | StopReason::Eos(_)));
    let hist_after_1 = sess.history().to_vec();

    // Turn 2: the API-shaped continuation — full conversation + new user
    // tokens. The resident history must be a prefix of it.
    let mut p2 = P1.to_vec();
    p2.extend_from_slice(&g1);
    p2.extend_from_slice(&[1003, 476, 2121]); // arbitrary new-turn tokens
    assert!(
        p2.starts_with(&hist_after_1),
        "history not a prefix of turn 2"
    );
    let resumed_from = sess.history().len();
    let (g2, _) = request(&mut sess, &mut dev, &p2, 6);
    let resumed = dev.clone();
    assert!(
        resumed_from > 0 && resumed_from < p2.len(),
        "turn 2 did not resume incrementally (resumed_from {resumed_from})"
    );

    // Resume vs cold: same tokens from a cold session fed the same prompt.
    sess.reset();
    let (g2_cold, _) = request(&mut sess, &mut dev, &p2, 6);
    assert_eq!(g2, g2_cold, "resumed and cold greedy generations diverged");

    // Replay: rerun the exact request sequence.
    sess.reset();
    request(&mut sess, &mut dev, P1, 6);
    let (g2_replay, _) = request(&mut sess, &mut dev, &p2, 6);
    assert_eq!(g2, g2_replay, "replay generated different tokens");
    assert_eq!(resumed, dev, "replayed session differs");

    // Divergence: a prompt sharing only part of P1 resets and matches a
    // fresh cold run.
    let p3: Vec<u32> = [&P1[..3], &[9259, 1003, 476]].concat();
    let (g3, _) = request(&mut sess, &mut dev, &p3, 4);
    let after = dev.clone();
    sess.reset();
    let (g3_cold, _) = request(&mut sess, &mut dev, &p3, 4);
    assert_eq!(g3, g3_cold);
    assert_eq!(after, dev, "divergence path differs from cold");
}

#[test]
fn a_retry_starts_over() {
    let mut dev = Device::default();
    let mut sess = Session::new(model(512, 64));
    let (first, _) = request(&mut sess, &mut dev, P1, 1);
    assert_eq!(sess.history(), P1);
    let (resume, actions) = sess.request(P1);
    assert_eq!(resume, 0);
    assert_eq!(sess.history(), &Vec::<u32>::new());
    assert_eq!(
        actions[0],
        Action::StageChunk {
            start: 0,
            len: 6,
            pos: 0
        }
    );
    perform(&mut sess, &mut dev, P1, actions);
    assert_eq!(sess.history(), P1);
    assert_eq!(dev.next(), first[0]);
}

#[test]
fn a_resumed_request_runs_only_the_suffix() {
    let mut dev = Device::default();
    let mut sess = Session::new(model(512, 64));
    request(&mut sess, &mut dev, P1, 1);
    let longer: Vec<u32> = P1.iter().copied().chain([7, 8, 9]).collect();
    let (resume, actions) = sess.request(&longer);
    assert_eq!(resume, 6);
    let key = GraphKey::Prefill(64, 3, super_gemma::prefill::LogitsMode::Last);
    assert_eq!(
        actions,
        [
            Action::Record(key),
            Action::StageChunk {
                start: 0,
                len: 3,
                pos: 6
            },
            Action::Submit(key),
            Action::Advance(3),
            Action::ReadLogits,
        ]
    );
}

#[test]
fn generation_stops_for_the_first_reason() {
    let mut g = Generation::new(3);
    assert_eq!(g.take(5, true), None);
    assert_eq!(g.tokens(), &[5]);
    assert_eq!(g.take(6, true), None);
    assert_eq!(g.take(7, true), Some(StopReason::MaxTokens));
    assert_eq!(g.into_tokens(), [5, 6, 7]);
    let mut g = Generation::new(3);
    assert_eq!(g.take(106, true), Some(StopReason::Eos(106)));
    let mut g = Generation::new(3);
    assert_eq!(g.take(1, false), Some(StopReason::Aborted));
    let mut g = Generation::new(1);
    assert_eq!(g.take(5, true), Some(StopReason::MaxTokens));
    assert_eq!(EOS_TOKENS, [1, 106]);
    assert!(is_eos(1) && is_eos(106) && !is_eos(2));
}

#[test]
fn a_limit_of_none_takes_no_token() {
    assert_eq!(before_first(0), Some(StopReason::MaxTokens));
    assert_eq!(before_first(1), None);
    let mut dev = Device::default();
    let mut sess = Session::new(model(512, 64));
    let (out, reason) = request(&mut sess, &mut dev, P1, 0);
    assert!(out.is_empty());
    assert_eq!(reason, StopReason::MaxTokens);
    assert_eq!(sess.history(), P1);
    let (out, _) = request(&mut sess, &mut dev, P1, 1);
    assert_eq!(out.len(), 1);
}

#[test]
fn a_failure_keeps_history_and_position_together() {
    let mut dev = Device::default();
    let mut sess = Session::new(model(512, 64));
    let long: Vec<u32> = (0..150).collect();
    let (_, actions) = sess.request(&long);
    // The device fails behind the first chunk.
    let first = actions
        .iter()
        .position(|a| matches!(a, Action::Advance(_)))
        .unwrap();
    perform(&mut sess, &mut dev, &long, actions[..=first].to_vec());
    assert_eq!(sess.history(), &long[..64]);
    assert_eq!(sess.host().pos, 64);
    sess.failed();
    assert_eq!(sess.history(), &long[..64]);
    assert_eq!(sess.host().pos, 64);
    let (resume, actions) = sess.request(&long);
    assert_eq!(resume, 64);
    perform(&mut sess, &mut dev, &long[64..], actions);
    assert_eq!(sess.history(), &long);
    assert_eq!(dev.kv, long);

    // The device fails before a decoded token is done.
    let actions = sess.decode(7);
    perform(&mut sess, &mut dev, &[], actions[..2].to_vec());
    sess.failed();
    assert_eq!(sess.history(), &long);
    assert_eq!(sess.host().pos, 150);
    // And behind it, on reading the logits.
    let actions = sess.decode(7);
    perform(&mut sess, &mut dev, &[], actions[..3].to_vec());
    sess.failed();
    assert_eq!(sess.history().len(), 151);
    assert_eq!(sess.host().pos, 151);
}

fn chars(s: &str) -> Vec<char> {
    s.chars().collect()
}

#[test]
fn tails_that_may_become_a_stop_are_measured() {
    assert_eq!(tail_overlap(&chars("abcST"), &chars("STOP")), 2);
    assert_eq!(tail_overlap(&chars("STOP"), &chars("STOP")), 0);
    assert_eq!(tail_overlap(&chars("aaa"), &chars("aaaa")), 3);
    assert_eq!(tail_overlap(&chars("é"), &chars("éx")), 1);
    assert_eq!(tail_overlap(&chars(""), &chars("x")), 0);
    assert_eq!(tail_overlap(&chars("x"), &chars("y")), 0);
}

#[test]
fn a_stop_split_over_pieces_never_shows() {
    let stops = vec!["STOP".to_owned(), "\n\n".to_owned()];
    let mut f = StopFilter::new(&stops);
    assert_eq!(f.push("one S"), ("one ".to_owned(), true));
    assert_eq!(f.push("Tx"), ("STx".to_owned(), true));
    assert_eq!(f.push("\n"), (String::new(), true));
    assert_eq!(f.push("a ST"), ("\na ".to_owned(), true));
    assert_eq!(f.push("OPPED\n\n"), (String::new(), false));
    // Nothing is left behind a stop.
    assert_eq!(f.rest(), "");

    let mut f = StopFilter::new(&stops);
    assert_eq!(f.push("ab\n\ncSTOP"), ("ab".to_owned(), false));

    let mut f = StopFilter::new(&stops);
    assert_eq!(f.push("end ST"), ("end ".to_owned(), true));
    assert_eq!(f.rest(), "ST");

    // A stop without text ends everything at once.
    let mut f = StopFilter::new(&vec!["STOP".to_owned(), String::new()]);
    assert_eq!(f.push("abc"), (String::new(), false));

    let mut f = StopFilter::new(&vec![]);
    assert_eq!(f.push("all"), ("all".to_owned(), true));
    assert_eq!(f.rest(), "");
}
