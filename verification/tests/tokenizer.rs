//! BPE engine, special matching, and streaming detokenization on a tiny
//! synthetic vocab.

use super_gemma::bpe::encode_segment;
use super_gemma::detok::DetokBuffer;
use super_gemma::tokenizer::{DecodeError, SpecialTokens, Tokenizer};
use super_gemma::vocab::{
    parse_byte_piece, MetaError, TokenType, TokenizerMetadata, Vocab, VocabError,
};

const NORMALS: &[&str] = &[
    "a", "b", "c", "x", "y", "z", "ab", "bc", "abc", "xy", "xyz", "aa", "▁", "▁a", "\n",
];
const MERGES: &[&str] = &["b c", "a b", "ab c", "x y", "xy z", "a a", "▁ a"];

/// Byte tokens sit at ids 4..260, normals after that.
fn id_of_byte(b: u8) -> u32 {
    4 + b as u32
}

fn id_of(piece: &str) -> u32 {
    let i = NORMALS
        .iter()
        .chain(&["<s>", "<ss>", "<turn|>"])
        .position(|p| *p == piece)
        .unwrap_or_else(|| panic!("{piece} not in tiny vocab"));
    260 + i as u32
}

fn tiny_meta() -> TokenizerMetadata {
    let mut pieces: Vec<String> = ["<pad>", "<eos>", "<bos>", "<unk>"]
        .iter()
        .map(|s| s.to_string())
        .collect();
    let mut types = vec![3i32; 4];
    for b in 0..=255u8 {
        pieces.push(format!("<0x{b:02X}>"));
        types.push(6);
    }
    for p in NORMALS {
        pieces.push((*p).to_owned());
        types.push(1);
    }
    for p in ["<s>", "<ss>", "<turn|>"] {
        pieces.push(p.to_owned());
        types.push(3);
    }
    TokenizerMetadata {
        model: Ok("gemma4".to_owned()),
        add_bos_token: Ok(Some(false)),
        add_space_prefix: Ok(Some(false)),
        scores_len: Ok(pieces.len()),
        tokens: Ok(pieces),
        token_type: Ok(types),
        merges: Ok(MERGES.iter().map(|s| s.to_string()).collect()),
        bos_token_id: Ok(2),
        eos_token_id: Ok(1),
        padding_token_id: Ok(0),
        unknown_token_id: Ok(3),
    }
}

fn tok() -> Tokenizer {
    Tokenizer::from_metadata(&tiny_meta()).unwrap_or_else(|e| panic!("{}", e.message()))
}

#[test]
fn merges_cascade_in_rank_order() {
    let t = tok();
    // (x,y) then (xy,z).
    assert_eq!(t.encode("xyz", SpecialTokens::Plain), [id_of("xyz")]);
    // For "abc", (b,c) has rank 0 and wins over (a,b); no (a,bc) merge exists.
    assert_eq!(
        t.encode("abc", SpecialTokens::Plain),
        [id_of("a"), id_of("bc")]
    );
}

#[test]
fn equal_rank_merges_leftmost_first() {
    let t = tok();
    assert_eq!(
        t.encode("aaaa", SpecialTokens::Plain),
        [id_of("aa"), id_of("aa")]
    );
    // Leftmost (a,a) wins, leaving [aa, a] — not [a, aa].
    assert_eq!(
        t.encode("aaa", SpecialTokens::Plain),
        [id_of("aa"), id_of("a")]
    );
}

#[test]
fn spaces_normalize_to_underscore_piece() {
    let t = tok();
    assert_eq!(
        t.encode("a a", SpecialTokens::Plain),
        [id_of("a"), id_of("▁a")]
    );
    // A literal ▁ in the input behaves like a space.
    assert_eq!(
        t.encode("a▁a", SpecialTokens::Plain),
        [id_of("a"), id_of("▁a")]
    );
}

#[test]
fn unknown_chars_fall_back_to_bytes_before_merging() {
    let t = tok();
    // 'é' = C3 A9.
    assert_eq!(
        t.encode("é", SpecialTokens::Plain),
        [id_of_byte(0xC3), id_of_byte(0xA9)]
    );
    assert_eq!(
        t.encode("aé", SpecialTokens::Plain),
        [id_of("a"), id_of_byte(0xC3), id_of_byte(0xA9)]
    );
}

#[test]
fn special_matching_is_leftmost_longest_and_mode_gated() {
    let t = tok();
    let got = t.encode("x<ss>y", SpecialTokens::Match);
    assert_eq!(got, [id_of("x"), id_of("<ss>"), id_of("y")]);
    // "<ss>" must win over its prefix "<s>".
    assert!(!got.contains(&id_of("<s>")));
    assert_eq!(
        t.encode("<s>x", SpecialTokens::Match),
        [id_of("<s>"), id_of("x")]
    );

    // Plain mode: '<', 's', '>' aren't vocab pieces, so they byte-fall back —
    // and crucially no control id appears.
    let plain = t.encode("x<ss>y", SpecialTokens::Plain);
    assert!(!plain.contains(&id_of("<ss>")) && !plain.contains(&id_of("<s>")));
    assert_eq!(
        plain,
        [
            id_of("x"),
            id_of_byte(b'<'),
            id_of_byte(b's'),
            id_of_byte(b's'),
            id_of_byte(b'>'),
            id_of("y"),
        ]
    );
}

#[test]
fn decode_reverses_normalization_bytes_and_specials() {
    let t = tok();
    for text in ["a a", "abc xyz", "aé", "x<ss>y", "line\nbreak"] {
        let ids = t.encode(text, SpecialTokens::Match);
        assert_eq!(t.decode(&ids).unwrap(), *text, "{text:?}");
    }
    assert_eq!(t.decode(&[2, id_of("a")]).unwrap(), "<bos>a");
    assert!(t.decode(&[99_999]).is_err());
}

#[test]
fn streaming_detok_withholds_partial_code_points() {
    let t = tok();
    let mut buf = DetokBuffer::new();
    let mut out = String::new();
    // 👍 = F0 9F 91 8D as four byte tokens.
    for (i, b) in [0xF0u8, 0x9F, 0x91, 0x8D].into_iter().enumerate() {
        t.decode_streaming(id_of_byte(b), &mut buf, &mut out)
            .unwrap();
        if i < 3 {
            assert!(out.is_empty(), "emitted partial UTF-8 at byte {i}");
            assert!(buf.has_pending());
        }
    }
    assert_eq!(out, "👍");
    assert!(!buf.has_pending());
}

#[test]
fn streaming_detok_replaces_broken_runs() {
    let t = tok();

    // Incomplete run flushed at end of generation.
    let mut buf = DetokBuffer::new();
    let mut out = String::new();
    t.decode_streaming(id_of_byte(0xF0), &mut buf, &mut out)
        .unwrap();
    t.flush_streaming(&mut buf, &mut out);
    assert_eq!(out, "\u{FFFD}");

    // Incomplete run terminated by a normal token.
    let mut buf = DetokBuffer::new();
    let mut out = String::new();
    t.decode_streaming(id_of_byte(0xF0), &mut buf, &mut out)
        .unwrap();
    t.decode_streaming(id_of("a"), &mut buf, &mut out).unwrap();
    assert_eq!(out, "\u{FFFD}a");

    // Outright invalid byte is replaced immediately.
    let mut buf = DetokBuffer::new();
    let mut out = String::new();
    t.decode_streaming(id_of_byte(0xFF), &mut buf, &mut out)
        .unwrap();
    assert_eq!(out, "\u{FFFD}");
}

#[test]
fn construction_validates_the_payload() {
    // Wrong model string; nothing else is there.
    let m = TokenizerMetadata {
        model: Ok("llama".to_owned()),
        add_bos_token: Err(missing()),
        add_space_prefix: Err(missing()),
        scores_len: Err(missing()),
        tokens: Err(missing()),
        token_type: Err(missing()),
        merges: Err(missing()),
        bos_token_id: Err(missing()),
        eos_token_id: Err(missing()),
        padding_token_id: Err(missing()),
        unknown_token_id: Err(missing()),
    };
    assert!(matches!(
        Tokenizer::from_metadata(&m),
        Err(VocabError::WrongModel(_))
    ));

    // add_bos_token = true contradicts the hard-coded encode behavior.
    let mut m = tiny_meta();
    m.add_bos_token = Ok(Some(true));
    assert!(matches!(
        Tokenizer::from_metadata(&m),
        Err(VocabError::UnsupportedFlag { .. })
    ));

    // A merge referencing absent pieces.
    let mut m = tiny_meta();
    m.merges = Ok(vec!["a z".to_owned()]);
    assert!(matches!(
        Tokenizer::from_metadata(&m),
        Err(VocabError::MergePieceMissing { .. })
    ));
}

#[test]
fn vocab_exposes_the_stop_tokens() {
    let t = tok();
    assert_eq!(t.vocab().bos(), 2);
    assert_eq!(t.vocab().eos(), 1);
    assert_eq!(t.vocab().eot(), id_of("<turn|>"));
}

fn refused(change: fn(&mut TokenizerMetadata)) -> VocabError {
    let mut m = tiny_meta();
    change(&mut m);
    match Vocab::from_metadata(&m) {
        Ok(_) => panic!("accepted"),
        Err(e) => e,
    }
}

fn missing() -> MetaError {
    MetaError {
        detail: "missing".to_owned(),
    }
}

#[test]
fn every_refusal_is_told_apart() {
    assert_eq!(
        refused(|m| m.model = Err(missing())),
        VocabError::Meta(missing())
    );
    assert_eq!(
        refused(|m| m.model = Ok("llama".to_owned())).message(),
        "tokenizer.ggml.model is `llama`, expected `gemma4`"
    );
    assert_eq!(
        refused(|m| m.add_space_prefix = Ok(Some(true))),
        VocabError::UnsupportedFlag {
            key: "tokenizer.ggml.add_space_prefix"
        }
    );
    assert_eq!(
        refused(|m| m.add_bos_token = Ok(Some(true))).message(),
        "metadata declares tokenizer.ggml.add_bos_token = true; this tokenizer is built for false"
    );
    let e = refused(|m| m.scores_len = Ok(1));
    assert_eq!(
        e,
        VocabError::ArrayLengths {
            tokens: 278,
            scores: 1,
            types: 278
        }
    );
    assert_eq!(
        e.message(),
        "tokenizer arrays disagree: 278 tokens, 1 scores, 278 types"
    );
    let e = refused(|m| {
        if let Ok(t) = &mut m.tokens {
            t[261] = "a".to_owned();
        }
    });
    assert_eq!(e, VocabError::DuplicatePiece("a".to_owned()));
    assert_eq!(e.message(), "duplicate token piece \"a\"");
    let e = refused(|m| {
        if let Ok(t) = &mut m.token_type {
            t[3] = -7;
        }
    });
    assert_eq!(e, VocabError::BadTokenType { id: 3, raw: -7 });
    assert_eq!(e.message(), "token 3 has invalid token_type -7");
    let e = refused(|m| {
        if let Ok(t) = &mut m.tokens {
            t[4] = "<0xQQ>".to_owned();
        }
    });
    assert_eq!(e, VocabError::BadByteToken("<0xQQ>".to_owned()));
    assert_eq!(
        e.message(),
        "byte token \"<0xQQ>\" is not of the form <0xXX>"
    );
    // A sign is no digit.
    assert_eq!(
        refused(|m| {
            if let Ok(t) = &mut m.tokens {
                t[9] = "<0x+5>".to_owned();
            }
        }),
        VocabError::BadByteToken("<0x+5>".to_owned())
    );
    // Two tokens for one byte leave another without.
    assert_eq!(
        refused(|m| {
            if let Ok(t) = &mut m.tokens {
                t[4] = "<0xfF>".to_owned();
            }
        }),
        VocabError::IncompleteByteTable(256)
    );
    let e = refused(|m| {
        if let Ok(t) = &mut m.token_type {
            t[4] = 1;
        }
    });
    assert_eq!(e, VocabError::IncompleteByteTable(255));
    assert_eq!(
        e.message(),
        "byte-fallback table incomplete: 255 of 256 byte tokens present"
    );
    for bad in ["ab", " b", "a ", "a b c"] {
        let mut m = tiny_meta();
        m.merges = Ok(vec!["b c".to_owned(), bad.to_owned()]);
        let e = Vocab::from_metadata(&m).err().unwrap();
        assert_eq!(
            e,
            VocabError::BadMergeFormat {
                index: 1,
                merge: bad.to_owned()
            }
        );
        assert_eq!(
            e.message(),
            format!("merge entry 1 ({bad:?}) is not two space-separated pieces")
        );
    }
    assert_eq!(
        refused(|m| m.merges = Ok(vec!["a z".to_owned()])).message(),
        "merge entry 0 (\"a z\") references pieces missing from the vocab"
    );
    let e = refused(|m| m.bos_token_id = Ok(1));
    assert_eq!(
        e,
        VocabError::SpecialIdMismatch {
            key: "tokenizer.ggml.bos_token_id",
            id: 1,
            piece: "<eos>".to_owned(),
            expected: "<bos>"
        }
    );
    assert_eq!(
        e.message(),
        "`tokenizer.ggml.bos_token_id` = 1 but that token is \"<eos>\", expected \"<bos>\""
    );
    let e = refused(|m| m.unknown_token_id = Ok(1 << 40));
    assert_eq!(e, VocabError::IdOutOfRange(1 << 40));
    assert_eq!(e.message(), "token id 1099511627776 out of range");
    let e = refused(|m| m.padding_token_id = Ok(278));
    assert_eq!(e, VocabError::IdOutOfRange(278));
    let e = refused(|m| {
        if let Ok(t) = &mut m.tokens {
            t[277] = "<other>".to_owned();
        }
    });
    assert_eq!(
        e,
        VocabError::SpecialIdMismatch {
            key: "<turn|> lookup",
            id: 0,
            piece: String::new(),
            expected: "<turn|>"
        }
    );
}

#[test]
fn the_first_failure_is_reported() {
    // Both the model and the merges are wrong; the model is looked at first.
    let mut m = tiny_meta();
    m.model = Ok("llama".to_owned());
    m.merges = Err(missing());
    assert!(matches!(
        Vocab::from_metadata(&m),
        Err(VocabError::WrongModel(_))
    ));
    // A lookup that fails counts only once it is reached.
    let mut m = tiny_meta();
    m.scores_len = Err(missing());
    m.merges = Ok(vec!["bad".to_owned()]);
    assert!(matches!(Vocab::from_metadata(&m), Err(VocabError::Meta(_))));
}

#[test]
fn tables_answer_lookups() {
    let t = tok();
    let v = t.vocab();
    assert_eq!(v.len(), 278);
    assert!(!v.is_empty());
    assert_eq!(v.piece(0), Some("<pad>"));
    assert_eq!(v.piece(278), None);
    assert_eq!(v.token_type(4), Some(TokenType::Byte));
    assert_eq!(v.token_type(260), Some(TokenType::Normal));
    assert_eq!(v.token_type(278), None);
    assert_eq!(v.id_of("xyz"), Some(id_of("xyz")));
    assert_eq!(v.id_of("nope"), None);
    for b in 0..=255u8 {
        assert_eq!(v.byte_id(b), id_of_byte(b));
        assert_eq!(v.byte_of(id_of_byte(b)), Some(b));
    }
    assert_eq!(v.byte_of(0), None);
    assert_eq!(v.pad(), 0);
    assert_eq!(v.unk(), 3);
}

#[test]
fn token_types_are_numbered_from_undefined() {
    let all = [
        TokenType::Undefined,
        TokenType::Normal,
        TokenType::Unknown,
        TokenType::Control,
        TokenType::UserDefined,
        TokenType::Unused,
        TokenType::Byte,
    ];
    for (raw, ty) in all.into_iter().enumerate() {
        assert_eq!(TokenType::from_raw(raw as i32), Some(ty));
    }
    assert_eq!(TokenType::from_raw(7), None);
    assert_eq!(TokenType::from_raw(-1), None);
}

#[test]
fn byte_pieces_spell_bytes() {
    assert_eq!(parse_byte_piece("<0x00>"), Some(0));
    assert_eq!(parse_byte_piece("<0xfF>"), Some(255));
    assert_eq!(parse_byte_piece("<0x+A>"), None);
    assert_eq!(parse_byte_piece("<0x+5>"), None);
    assert_eq!(parse_byte_piece("<0x5>"), None);
    assert_eq!(parse_byte_piece("<0xA>"), None);
    assert_eq!(parse_byte_piece("<0x0A"), None);
    assert_eq!(parse_byte_piece("<0xGG>"), None);
    assert_eq!(parse_byte_piece("<0x-1>"), None);
}

#[test]
fn segments_append_to_what_is_there() {
    let t = tok();
    let mut ids = vec![7u32];
    encode_segment(t.vocab(), "xyz", &mut ids);
    assert_eq!(ids, [7, id_of("xyz")]);
    encode_segment(t.vocab(), "", &mut ids);
    assert_eq!(ids, [7, id_of("xyz")]);
}

#[test]
fn a_special_alone_encodes_to_itself() {
    let t = tok();
    for piece in ["<s>", "<ss>", "<turn|>"] {
        assert_eq!(t.encode(piece, SpecialTokens::Match), [id_of(piece)]);
    }
    assert_eq!(t.encode("<bos>", SpecialTokens::Match), [2]);
}

#[test]
fn plain_text_never_gives_a_control_token() {
    let t = tok();
    for text in ["<bos>", "a<s><ss>b", "<turn|>"] {
        let ids = t.encode(text, SpecialTokens::Plain);
        for id in ids {
            assert_ne!(t.vocab().token_type(id), Some(TokenType::Control));
        }
    }
}

#[test]
fn decoding_in_parts_is_decoding() {
    let t = tok();
    let ids = t.encode("a 👍x<ss>é", SpecialTokens::Match);
    let whole = t.decode(&ids).unwrap();
    for cut in 0..ids.len() {
        let mut buf = DetokBuffer::new();
        let mut out = String::new();
        for &id in &ids[..cut] {
            t.decode_streaming(id, &mut buf, &mut out).unwrap();
        }
        for &id in &ids[cut..] {
            t.decode_streaming(id, &mut buf, &mut out).unwrap();
        }
        t.flush_streaming(&mut buf, &mut out);
        assert_eq!(out, whole);
    }
}

/// The tiny vocab with the pieces of `<s>` and `<ss>` spelled otherwise.
fn respelled(first: &str, second: &str) -> Tokenizer {
    let mut m = tiny_meta();
    if let Ok(t) = &mut m.tokens {
        t[275] = first.to_owned();
        t[276] = second.to_owned();
    }
    if let Ok(t) = &mut m.token_type {
        t[276] = 4;
    }
    Tokenizer::from_metadata(&m).unwrap_or_else(|e| panic!("{}", e.message()))
}

#[test]
fn specials_are_matched_however_they_are_spelled() {
    let t = respelled("[S]", "[S][");
    assert_eq!(t.encode("[S]", SpecialTokens::Match), [275]);
    assert_eq!(
        t.encode("x[S]y[S][z", SpecialTokens::Match),
        [id_of("x"), 275, id_of("y"), 276, id_of("z")]
    );
    assert!(!t.encode("x[S]", SpecialTokens::Plain).contains(&275));
    // One inside a longer run of text, too.
    let t = respelled("yz", "é");
    assert_eq!(
        t.encode("xyzé<turn|>", SpecialTokens::Match),
        [id_of("x"), 275, 276, id_of("<turn|>")]
    );
}

#[test]
fn a_special_without_text_is_never_matched() {
    let t = respelled("", "<ss>");
    assert_eq!(
        t.encode("x<ss><y", SpecialTokens::Match),
        [id_of("x"), 276, id_of_byte(b'<'), id_of("y")]
    );
    assert!(t.encode("", SpecialTokens::Match).is_empty());
}

#[test]
fn decode_error_names_the_id() {
    let t = tok();
    let e = t.decode(&[id_of("a"), 99_999]).unwrap_err();
    assert_eq!(e, DecodeError::IdOutOfRange(99_999));
    assert_eq!(e.message(), "token id 99999 out of range for the vocab");
}

#[test]
fn detok_keeps_what_can_still_become_a_char() {
    let mut buf = DetokBuffer::default();
    let mut out = String::new();
    for b in "é€".bytes() {
        buf.push_byte(b, &mut out);
    }
    assert_eq!(out, "é€");
    // A broken run gives way, and what follows starts anew.
    buf.push_byte(0xE2, &mut out);
    assert!(buf.has_pending());
    buf.push_byte(b'a', &mut out);
    assert_eq!(out, "é€\u{FFFD}a");
    buf.flush(&mut out);
    assert_eq!(out, "é€\u{FFFD}a");
}

#[test]
fn any_bytes_decode_as_the_lossy_whole() {
    let runs: [&[u8]; 8] = [
        b"plain",
        &[0xE2, 0x82, 0xAC, 0xE2, 0x82],
        &[0xF0, 0x9F, 0x91, 0xF0, 0x9F, 0x91, 0x8D],
        &[0xFF, 0xC3, 0x28, 0x80, 0x80],
        &[0xED, 0xA0, 0x80, 0xE0, 0x9F, 0x80],
        &[0xF4, 0x90, 0x80, 0x80, 0xF4, 0x8F, 0xBF],
        &[0xC0, 0x80, 0xC2],
        &[],
    ];
    for bytes in runs {
        let mut buf = DetokBuffer::new();
        let mut out = String::new();
        for (i, &b) in bytes.iter().enumerate() {
            buf.push_byte(b, &mut out);
            let mut shown = out.clone();
            if buf.has_pending() {
                shown.push('\u{FFFD}');
            }
            assert_eq!(shown, String::from_utf8_lossy(&bytes[..=i]));
        }
        buf.flush(&mut out);
        assert!(!buf.has_pending());
        assert_eq!(out, String::from_utf8_lossy(bytes));
    }
}

#[test]
fn metadata_of_ordinary_size_fits() {
    assert!(tiny_meta().fits());
}
