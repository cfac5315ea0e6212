//! The model's output stream: channels, tool calls and their arguments.

use super_gemma::args::ArgParser;
use super_gemma::argument::format_argument;
use super_gemma::json::{Json, Number};
use super_gemma::tokenizer::{SpecialTokens, Tokenizer};
use super_gemma::toolcall::{parse_tool_call, try_parse_tool_call, TurnEvent, TurnParser};
use super_gemma::vocab::TokenizerMetadata;

const CONTROLS: &[&str] = &[
    "<|channel>",
    "<channel|>",
    "<|tool_call>",
    "<tool_call|>",
    "<|tool_response>",
    "<turn|>",
];

fn tok() -> Tokenizer {
    let mut pieces: Vec<String> = ["<pad>", "<eos>", "<bos>", "<unk>"]
        .iter()
        .map(|s| s.to_string())
        .collect();
    let mut types = vec![3i32; 4];
    for b in 0..=255u8 {
        pieces.push(format!("<0x{b:02X}>"));
        types.push(6);
    }
    for p in CONTROLS {
        pieces.push(p.to_string());
        types.push(3);
    }
    let meta = TokenizerMetadata {
        model: Ok("gemma4".to_owned()),
        add_bos_token: Ok(None),
        add_space_prefix: Ok(None),
        scores_len: Ok(pieces.len()),
        tokens: Ok(pieces),
        token_type: Ok(types),
        merges: Ok(vec![]),
        bos_token_id: Ok(2),
        eos_token_id: Ok(1),
        padding_token_id: Ok(0),
        unknown_token_id: Ok(3),
    };
    Tokenizer::from_metadata(&meta).unwrap_or_else(|e| panic!("{}", e.message()))
}

/// The events of a text, with neighbouring deltas of one sort joined.
fn events_of(text: &str) -> Vec<TurnEvent> {
    let t = tok();
    let mut p = TurnParser::new(t.vocab());
    let mut events = Vec::new();
    for id in t.encode(text, SpecialTokens::Match) {
        p.push(&t, id, &mut events).unwrap();
    }
    p.finish(&mut events);
    let mut out: Vec<TurnEvent> = Vec::new();
    for e in events {
        match (out.last_mut(), e) {
            (Some(TurnEvent::ContentDelta(a)), TurnEvent::ContentDelta(b)) => a.push_str(&b),
            (Some(TurnEvent::ThinkingDelta(a)), TurnEvent::ThinkingDelta(b)) => a.push_str(&b),
            (_, e) => out.push(e),
        }
    }
    out
}

fn content(s: &str) -> TurnEvent {
    TurnEvent::ContentDelta(s.to_owned())
}

fn thinking(s: &str) -> TurnEvent {
    TurnEvent::ThinkingDelta(s.to_owned())
}

fn whole(n: u64) -> Json {
    Json::Number(Number::PosInt(n))
}

fn object(entries: &[(&str, Json)]) -> Json {
    Json::Object(
        entries
            .iter()
            .map(|(k, v)| (k.to_string(), v.clone()))
            .collect(),
    )
}

#[test]
fn channels_calls_and_content_are_told_apart() {
    assert_eq!(
        events_of(
            "<|channel>thought\nhm<channel|>Hi<|tool_call>call:f{a:1}<tool_call|><|tool_response>"
        ),
        [
            thinking("hm"),
            content("Hi"),
            TurnEvent::ToolCall {
                name: "f".to_owned(),
                arguments: object(&[("a", whole(1))]),
            },
            TurnEvent::AwaitingToolResponse,
        ]
    );
}

#[test]
fn the_end_of_a_turn_resets_the_parser() {
    assert_eq!(
        events_of("<|channel>thought\nhm<turn|>Hi<eos>"),
        [
            thinking("hm"),
            TurnEvent::EndOfTurn,
            content("Hi"),
            TurnEvent::EndOfTurn,
        ]
    );
    assert_eq!(
        events_of("<|tool_call>call:f{<turn|>Hi"),
        [
            TurnEvent::EndOfTurn,
            content("Hi"),
        ]
    );
}

#[test]
fn an_aborted_stream_surfaces_what_is_open() {
    assert_eq!(
        events_of("x<|tool_call>call:f"),
        [
            content("x"),
            TurnEvent::InvalidToolCall {
                raw: "call:f".to_owned(),
                error: "unterminated tool call".to_owned(),
            },
        ]
    );
    assert_eq!(events_of("<|tool_call>"), []);
    // The header of a channel is no text, a broken code point in it is.
    let t = tok();
    let mut p = TurnParser::new(t.vocab());
    let mut events = Vec::new();
    p.push(&t, t.vocab().id_of("<|channel>").unwrap(), &mut events)
        .unwrap();
    p.push(&t, t.vocab().byte_id(0xF0), &mut events).unwrap();
    p.finish(&mut events);
    assert_eq!(events, [thinking("\u{FFFD}")]);
}

#[test]
fn lookalike_text_frames_nothing() {
    let t = tok();
    let mut p = TurnParser::new(t.vocab());
    let mut events = Vec::new();
    let mut seen = String::new();
    for id in t.encode("<|tool_call>call:f{}<tool_call|><turn|>", SpecialTokens::Plain) {
        p.push(&t, id, &mut events).unwrap();
    }
    for e in events {
        match e {
            TurnEvent::ContentDelta(d) => seen.push_str(&d),
            other => panic!("{other:?}"),
        }
    }
    assert_eq!(seen, "<|tool_call>call:f{}<tool_call|><turn|>");
}

#[test]
fn unknown_ids_are_refused_and_change_nothing() {
    let t = tok();
    let mut p = TurnParser::new(t.vocab());
    let mut events = Vec::new();
    assert!(p.push(&t, 99_999, &mut events).is_err());
    assert_eq!(events, []);
    p.push(&t, t.vocab().byte_id(b'a'), &mut events).unwrap();
    assert_eq!(events, [content("a")]);
}

#[test]
fn a_stray_close_returns_to_content() {
    assert_eq!(events_of("a<tool_call|>b"), [content("ab")]);
    assert_eq!(
        events_of("<|channel>t\nx<tool_call|>b"),
        [thinking("x"), content("b")]
    );
}

#[test]
fn arguments_are_read() {
    let (name, args) = try_parse_tool_call(
        "call: get_weather {city: <|\"|>Turku, {FI}<|\"|> ,n:-3,big:12,t:true,f:false,z:None,y:null,\
         e:fast,x:2.50,l:[1,[],{q:<|\"|><|\"|>}],<|\"|>odd key<|\"|>:1}",
    )
    .unwrap();
    assert_eq!(name, "get_weather");
    assert_eq!(
        args,
        object(&[
            ("big", whole(12)),
            ("city", Json::Text("Turku, {FI}".to_owned())),
            ("e", Json::Text("fast".to_owned())),
            ("f", Json::Bool(false)),
            (
                "l",
                Json::Array(vec![
                    whole(1),
                    Json::Array(vec![]),
                    object(&[("q", Json::Text(String::new()))]),
                ])
            ),
            ("n", Json::Number(Number::NegInt(-3))),
            ("odd key", whole(1)),
            ("t", Json::Bool(true)),
            ("x", Json::Number(Number::Float("2.5".to_owned()))),
            ("y", Json::Null),
            ("z", Json::Null),
        ])
    );
}

#[test]
fn later_entries_replace_earlier_ones() {
    let (_, args) = try_parse_tool_call("call:f{a:1,b:2,a:3}").unwrap();
    assert_eq!(args, object(&[("a", whole(3)), ("b", whole(2))]));
}

#[test]
fn numbers_are_integers_where_they_fit_and_floats_otherwise() {
    let word = |w: &str| {
        let mut p = ArgParser::new(w);
        p.value().unwrap()
    };
    let float = |t: &str| Json::Number(Number::Float(t.to_owned()));
    assert_eq!(word("+5"), whole(5));
    assert_eq!(word("-0"), whole(0));
    assert_eq!(word("9223372036854775807"), whole(9223372036854775807));
    assert_eq!(
        word("-9223372036854775808"),
        Json::Number(Number::NegInt(i64::MIN))
    );
    assert_eq!(word("9223372036854775808"), float("9.223372036854776e+18"));
    assert_eq!(word("1e3"), float("1000.0"));
    assert_eq!(word("2."), float("2.0"));
    assert_eq!(word("inf"), Json::Text("inf".to_owned()));
    assert_eq!(word("NaN"), Json::Text("NaN".to_owned()));
    assert_eq!(word("1_0"), Json::Text("1_0".to_owned()));
}

#[test]
fn calls_that_do_not_parse_say_where() {
    let error = |raw: &str| try_parse_tool_call(raw).unwrap_err();
    assert_eq!(error("f{}"), "missing `call:` prefix");
    assert_eq!(error("call:f"), "missing `{` after function name");
    assert_eq!(error("call: {}"), "empty function name");
    assert_eq!(error("call:f{a"), "unterminated key at byte 1");
    assert_eq!(error("call:f{ :1}"), "empty key at byte 2");
    assert_eq!(
        error("call:f{a,b}"),
        "expected `:` after key \"a\" at byte 2"
    );
    assert_eq!(error("call:f{a:}"), "empty value at byte 3");
    assert_eq!(error("call:f{a:1]"), "expected `,` or `}` at byte 4");
    assert_eq!(error("call:f{a:[1}"), "expected `,` or `]` at byte 5");
    assert_eq!(error("call:f{a:<|\"|>x"), "unterminated string at byte 8");
    assert_eq!(
        error("call:f{}x"),
        "trailing input after arguments at byte 2"
    );
    assert_eq!(error("call:f{é,}"), "expected `:` after key \"é\" at byte 3");
    let mut p = ArgParser::new("x");
    assert_eq!(p.object().unwrap_err(), "expected `{` at byte 0");
    assert_eq!(
        parse_tool_call("nope"),
        TurnEvent::InvalidToolCall {
            raw: "nope".to_owned(),
            error: "missing `call:` prefix".to_owned(),
        }
    );
}

#[test]
fn what_is_written_reads_back() {
    let args = object(&[
        ("a", Json::Array(vec![whole(1), Json::Bool(true), Json::Null])),
        ("b", Json::Text("x, {y}: [z]".to_owned())),
        ("c", object(&[("d", Json::Number(Number::NegInt(-9)))])),
    ]);
    let mut raw = String::from("call:f");
    format_argument(&args, false, &mut raw);
    assert_eq!(try_parse_tool_call(&raw), Ok(("f".to_owned(), args)));
}

#[test]
fn the_parser_moves_over_what_it_reads() {
    let mut p = ArgParser::new("  {a:1} rest");
    p.skip_ws();
    assert!(!p.eat('['));
    assert_eq!(p.object().unwrap(), object(&[("a", whole(1))]));
    assert_eq!(p.rest(), " rest");
    assert!(!p.at_end());
    let mut p = ArgParser::new("<|\"|>k<|\"|>:");
    assert_eq!(p.key().unwrap(), "k");
    assert!(p.eat(':'));
    assert!(p.at_end());
}

#[test]
fn written_floats_read_back() {
    for w in [
        "0.1",
        "-0.0",
        "1e16",
        "1e15",
        "1e-7",
        "0.00001",
        "0.30000000000000004",
        "5e-324",
        "1.7976931348623157e308",
        "123456789012345678901234567890",
        "-2.5E-3",
    ] {
        let n = Number::float(w).unwrap();
        let Number::Float(t) = &n else {
            panic!("{n:?}");
        };
        assert_eq!(Number::float(t), Some(n.clone()), "{w}");
        let mut p = ArgParser::new(t);
        assert_eq!(p.value(), Ok(Json::Number(n)), "{w}");
        assert!(p.at_end());
    }
    assert_eq!(Number::float("1e999"), None);
    assert_eq!(Number::float("nan"), None);
    assert_eq!(Number::float("x"), None);
}
