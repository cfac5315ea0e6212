//! Vocabulary, merge table, byte-fallback map, and special tokens.
//!
//! The tables describe a BPE model with `byte_fallback`, normalizer
//! `Replace(" " -> "\u{2581}")`, no pre-tokenization, and plain-matched
//! special tokens. Construction validates every assumption the encoder and
//! the decoder rely on.

use std::collections::HashMap;
use vstd::hash_map::StringHashMap;
use vstd::prelude::*;
use vstd::std_specs::hash::*;
use vstd::string::*;
use vstd::utf8::*;

use crate::text::{
    byte_len, chars_of, debug_quoted, debug_text, decimal, push_decimal, push_range, push_signed,
    same_text, signed_decimal, texts, utf8_len,
};

verus! {

/// Token type ids as stored in `tokenizer.ggml.token_type`.
#[derive(Debug, Clone, Copy, PartialEq, Eq, Structural)]
pub enum TokenType {
    Undefined,
    Normal,
    Unknown,
    Control,
    UserDefined,
    Unused,
    Byte,
}

/// The token type that a stored id stands for.
pub open spec fn token_type_of(raw: i32) -> Option<TokenType> {
    if raw == 0 {
        Some(TokenType::Undefined)
    } else if raw == 1 {
        Some(TokenType::Normal)
    } else if raw == 2 {
        Some(TokenType::Unknown)
    } else if raw == 3 {
        Some(TokenType::Control)
    } else if raw == 4 {
        Some(TokenType::UserDefined)
    } else if raw == 5 {
        Some(TokenType::Unused)
    } else if raw == 6 {
        Some(TokenType::Byte)
    } else {
        None
    }
}

impl TokenType {
    pub fn from_raw(raw: i32) -> (r: Option<Self>)
        ensures
            r == token_type_of(raw),
    {
        match raw {
            0 => Some(TokenType::Undefined),
            1 => Some(TokenType::Normal),
            2 => Some(TokenType::Unknown),
            3 => Some(TokenType::Control),
            4 => Some(TokenType::UserDefined),
            5 => Some(TokenType::Unused),
            6 => Some(TokenType::Byte),
            _ => None,
        }
    }

    /// Control and user-defined tokens are matched literally in template
    /// text.
    pub open spec fn special(self) -> bool {
        self == TokenType::Control || self == TokenType::UserDefined
    }
}

/// A metadata lookup that failed, with the reason.
#[derive(Debug, PartialEq, Eq)]
pub struct MetaError {
    pub detail: String,
}

/// The outcomes of the metadata lookups (`tokenizer.ggml.*`) that the
/// vocabulary is built from. Of the scores only their number is read.
#[derive(Debug)]
pub struct TokenizerMetadata {
    pub model: Result<String, MetaError>,
    pub add_bos_token: Result<Option<bool>, MetaError>,
    pub add_space_prefix: Result<Option<bool>, MetaError>,
    pub tokens: Result<Vec<String>, MetaError>,
    pub scores_len: Result<usize, MetaError>,
    pub token_type: Result<Vec<i32>, MetaError>,
    pub merges: Result<Vec<String>, MetaError>,
    pub bos_token_id: Result<u64, MetaError>,
    pub eos_token_id: Result<u64, MetaError>,
    pub padding_token_id: Result<u64, MetaError>,
    pub unknown_token_id: Result<u64, MetaError>,
}

/// Why a vocabulary was refused.
#[derive(Debug, PartialEq, Eq)]
pub enum VocabError {
    /// A required metadata entry is missing or malformed.
    Meta(MetaError),
    /// `tokenizer.ggml.model` is not `gemma4`.
    WrongModel(String),
    /// The tokenizer arrays disagree in length.
    ArrayLengths { tokens: usize, scores: usize, types: usize },
    DuplicatePiece(String),
    BadTokenType { id: u32, raw: i32 },
    /// A byte token that is not of the form `<0xXX>`.
    BadByteToken(String),
    /// The number of byte tokens found, where the byte-fallback table is
    /// incomplete.
    IncompleteByteTable(usize),
    /// A merge entry that is not two space-separated pieces.
    BadMergeFormat { index: usize, merge: String },
    /// A merge entry that references pieces missing from the vocab.
    MergePieceMissing { index: usize, merge: String },
    SpecialIdMismatch { key: &'static str, id: u32, piece: String, expected: &'static str },
    /// A flag that is true, where this tokenizer is built for false.
    UnsupportedFlag { key: &'static str },
    IdOutOfRange(u64),
}

/// [`VocabError`] with its strings as character sequences.
pub enum VocabFault {
    Meta(Seq<char>),
    WrongModel(Seq<char>),
    ArrayLengths { tokens: usize, scores: usize, types: usize },
    DuplicatePiece(Seq<char>),
    BadTokenType { id: u32, raw: i32 },
    BadByteToken(Seq<char>),
    IncompleteByteTable(usize),
    BadMergeFormat { index: usize, merge: Seq<char> },
    MergePieceMissing { index: usize, merge: Seq<char> },
    SpecialIdMismatch { key: Seq<char>, id: u32, piece: Seq<char>, expected: Seq<char> },
    UnsupportedFlag { key: Seq<char> },
    IdOutOfRange(u64),
}

impl View for VocabError {
    type V = VocabFault;

    open spec fn view(&self) -> VocabFault {
        match *self {
            VocabError::Meta(e) => VocabFault::Meta(e.detail@),
            VocabError::WrongModel(m) => VocabFault::WrongModel(m@),
            VocabError::ArrayLengths { tokens, scores, types } => VocabFault::ArrayLengths {
                tokens,
                scores,
                types,
            },
            VocabError::DuplicatePiece(p) => VocabFault::DuplicatePiece(p@),
            VocabError::BadTokenType { id, raw } => VocabFault::BadTokenType { id, raw },
            VocabError::BadByteToken(p) => VocabFault::BadByteToken(p@),
            VocabError::IncompleteByteTable(n) => VocabFault::IncompleteByteTable(n),
            VocabError::BadMergeFormat { index, merge } => VocabFault::BadMergeFormat {
                index,
                merge: merge@,
            },
            VocabError::MergePieceMissing { index, merge } => VocabFault::MergePieceMissing {
                index,
                merge: merge@,
            },
            VocabError::SpecialIdMismatch { key, id, piece, expected } =>
                VocabFault::SpecialIdMismatch { key: key@, id, piece: piece@, expected: expected@ },
            VocabError::UnsupportedFlag { key } => VocabFault::UnsupportedFlag { key: key@ },
            VocabError::IdOutOfRange(id) => VocabFault::IdOutOfRange(id),
        }
    }
}

impl VocabFault {
    /// The error in words.
    pub open spec fn text(self) -> Seq<char> {
        match self {
            VocabFault::Meta(detail) => detail,
            VocabFault::WrongModel(m) => "tokenizer.ggml.model is `"@ + m + "`, expected `gemma4`"@,
            VocabFault::ArrayLengths { tokens, scores, types } => "tokenizer arrays disagree: "@
                + decimal(tokens as nat) + " tokens, "@ + decimal(scores as nat) + " scores, "@
                + decimal(types as nat) + " types"@,
            VocabFault::DuplicatePiece(p) => "duplicate token piece "@ + debug_text(p),
            VocabFault::BadTokenType { id, raw } => "token "@ + decimal(id as nat)
                + " has invalid token_type "@ + signed_decimal(raw as int),
            VocabFault::BadByteToken(p) => "byte token "@ + debug_text(p)
                + " is not of the form <0xXX>"@,
            VocabFault::IncompleteByteTable(n) => "byte-fallback table incomplete: "@ + decimal(
                n as nat,
            ) + " of 256 byte tokens present"@,
            VocabFault::BadMergeFormat { index, merge } => "merge entry "@ + decimal(index as nat)
                + " ("@ + debug_text(merge) + ") is not two space-separated pieces"@,
            VocabFault::MergePieceMissing { index, merge } => "merge entry "@ + decimal(
                index as nat,
            ) + " ("@ + debug_text(merge) + ") references pieces missing from the vocab"@,
            VocabFault::SpecialIdMismatch { key, id, piece, expected } => "`"@ + key + "` = "@
                + decimal(id as nat) + " but that token is "@ + debug_text(piece) + ", expected "@
                + debug_text(expected),
            VocabFault::UnsupportedFlag { key } => "metadata declares "@ + key
                + " = true; this tokenizer is built for false"@,
            VocabFault::IdOutOfRange(id) => "token id "@ + decimal(id as nat) + " out of range"@,
        }
    }
}

impl VocabError {
    /// The error in words.
    pub fn message(&self) -> (s: String)
        ensures
            s@ == self@.text(),
    {
        match self {
            VocabError::Meta(e) => e.detail.as_str().to_owned(),
            VocabError::WrongModel(m) => {
                let mut s: String = "tokenizer.ggml.model is `".to_owned();
                s.append(m.as_str());
                s.append("`, expected `gemma4`");
                s
            },
            VocabError::ArrayLengths { tokens, scores, types } => {
                let mut s: String = "tokenizer arrays disagree: ".to_owned();
                push_decimal(&mut s, *tokens as u64);
                s.append(" tokens, ");
                push_decimal(&mut s, *scores as u64);
                s.append(" scores, ");
                push_decimal(&mut s, *types as u64);
                s.append(" types");
                s
            },
            VocabError::DuplicatePiece(p) => {
                let mut s: String = "duplicate token piece ".to_owned();
                s.append(debug_quoted(p.as_str()).as_str());
                s
            },
            VocabError::BadTokenType { id, raw } => {
                let mut s: String = "token ".to_owned();
                push_decimal(&mut s, *id as u64);
                s.append(" has invalid token_type ");
                push_signed(&mut s, *raw as i64);
                s
            },
            VocabError::BadByteToken(p) => {
                let mut s: String = "byte token ".to_owned();
                s.append(debug_quoted(p.as_str()).as_str());
                s.append(" is not of the form <0xXX>");
                s
            },
            VocabError::IncompleteByteTable(n) => {
                let mut s: String = "byte-fallback table incomplete: ".to_owned();
                push_decimal(&mut s, *n as u64);
                s.append(" of 256 byte tokens present");
                s
            },
            VocabError::BadMergeFormat { index, merge } => {
                let mut s: String = "merge entry ".to_owned();
                push_decimal(&mut s, *index as u64);
                s.append(" (");
                s.append(debug_quoted(merge.as_str()).as_str());
                s.append(") is not two space-separated pieces");
                s
            },
            VocabError::MergePieceMissing { index, merge } => {
                let mut s: String = "merge entry ".to_owned();
                push_decimal(&mut s, *index as u64);
                s.append(" (");
                s.append(debug_quoted(merge.as_str()).as_str());
                s.append(") references pieces missing from the vocab");
                s
            },
            VocabError::SpecialIdMismatch { key, id, piece, expected } => {
                let mut s: String = "`".to_owned();
                s.append(key);
                s.append("` = ");
                push_decimal(&mut s, *id as u64);
                s.append(" but that token is ");
                s.append(debug_quoted(piece.as_str()).as_str());
                s.append(", expected ");
                s.append(debug_quoted(expected).as_str());
                s
            },
            VocabError::UnsupportedFlag { key } => {
                let mut s: String = "metadata declares ".to_owned();
                s.append(key);
                s.append(" = true; this tokenizer is built for false");
                s
            },
            VocabError::IdOutOfRange(id) => {
                let mut s: String = "token id ".to_owned();
                push_decimal(&mut s, *id);
                s.append(" out of range");
                s
            },
        }
    }
}

/// The value of a hexadecimal digit, in either case.
pub open spec fn hex_value(c: char) -> Option<u8> {
    if '0' <= c <= '9' {
        Some((c as u32 - '0' as u32) as u8)
    } else if 'a' <= c <= 'f' {
        Some((c as u32 - 'a' as u32 + 10) as u8)
    } else if 'A' <= c <= 'F' {
        Some((c as u32 - 'A' as u32 + 10) as u8)
    } else {
        None
    }
}

fn hex_digit(c: char) -> (r: Option<u8>)
    ensures
        r == hex_value(c),
{
    let v: u32 = c as u32;
    if '0' <= c && c <= '9' {
        Some((v - 48) as u8)
    } else if 'a' <= c && c <= 'f' {
        Some((v - 87) as u8)
    } else if 'A' <= c && c <= 'F' {
        Some((v - 55) as u8)
    } else {
        None
    }
}

/// The byte that a piece of the form `<0xXX>` spells: two hex digits, each in
/// either case.
pub open spec fn byte_piece(piece: Seq<char>) -> Option<u8> {
    if piece.len() == 6 && piece[0] == '<' && piece[1] == '0' && piece[2] == 'x' && piece[5] == '>' {
        match (hex_value(piece[3]), hex_value(piece[4])) {
            (Some(hi), Some(lo)) => Some((16 * hi + lo) as u8),
            _ => None,
        }
    } else {
        None
    }
}

/// Reads a byte token's piece.
pub fn parse_byte_piece(piece: &str) -> (r: Option<u8>)
    ensures
        r == byte_piece(piece@),
{
    let p = chars_of(piece);
    if p.len() == 6 && p[0] == '<' && p[1] == '0' && p[2] == 'x' && p[5] == '>' {
        match (hex_digit(p[3]), hex_digit(p[4])) {
            (Some(hi), Some(lo)) => Some(16 * hi + lo),
            _ => None,
        }
    } else {
        None
    }
}

/// The tables of a vocabulary.
#[verifier::ext_equal]
pub struct VocabView {
    /// Piece of each token, by id.
    pub pieces: Seq<Seq<char>>,
    /// Type of each token, by id.
    pub types: Seq<TokenType>,
    /// `(left, right) -> (rank, merged)`; the rank is the merge-list index.
    pub merges: Map<(u32, u32), (u32, u32)>,
    /// Byte value -> id of its byte token.
    pub bytes: Seq<u32>,
    /// Control and user-defined tokens, longest piece first.
    pub specials: Seq<(Seq<char>, u32)>,
    pub bos: u32,
    pub eos: u32,
    pub pad: u32,
    pub unk: u32,
    /// `<turn|>`, the end-of-turn token.
    pub eot: u32,
}

/// The id of `piece` in the list `pieces`.
pub open spec fn position_of(pieces: Seq<Seq<char>>, piece: Seq<char>) -> Option<u32> {
    if pieces.contains(piece) {
        Some(pieces.index_of(piece) as u32)
    } else {
        None
    }
}

impl VocabView {
    pub open spec fn id_of(self, piece: Seq<char>) -> Option<u32> {
        position_of(self.pieces, piece)
    }

    pub open spec fn piece(self, id: u32) -> Option<Seq<char>> {
        if (id as int) < self.pieces.len() {
            Some(self.pieces[id as int])
        } else {
            None
        }
    }

    pub open spec fn token_type(self, id: u32) -> Option<TokenType> {
        if (id as int) < self.types.len() {
            Some(self.types[id as int])
        } else {
            None
        }
    }

    /// The byte that `id` stands for, where it is a byte token.
    pub open spec fn byte_of(self, id: u32) -> Option<u8> {
        if (id as int) < self.types.len() && self.types[id as int] == TokenType::Byte {
            byte_piece(self.pieces[id as int])
        } else {
            None
        }
    }

    pub open spec fn merge(self, left: u32, right: u32) -> Option<(u32, u32)> {
        if self.merges.contains_key((left, right)) {
            Some(self.merges[(left, right)])
        } else {
            None
        }
    }

    /// Merging two tokens yields the token that spells both, and no piece
    /// of a merge is empty.
    pub open spec fn merges_spell(self) -> bool {
        forall|l: u32, r: u32| #[trigger]
            self.merges.contains_key((l, r)) ==> {
                let m = self.merges[(l, r)].1;
                &&& (l as int) < self.pieces.len()
                &&& (r as int) < self.pieces.len()
                &&& (m as int) < self.pieces.len()
                &&& self.pieces[l as int].len() > 0
                &&& self.pieces[r as int].len() > 0
                &&& self.pieces[m as int] == self.pieces[l as int] + self.pieces[r as int]
            }
    }

    /// Every byte value has a byte token, and only one.
    pub open spec fn bytes_complete(self) -> bool {
        &&& self.bytes.len() == 256
        &&& forall|b: int|
            0 <= b < 256 ==> {
                &&& (#[trigger] self.bytes[b] as int) < self.pieces.len()
                &&& self.byte_of(self.bytes[b]) == Some(b as u8)
            }
        &&& forall|id: int|
            0 <= id < self.types.len() && #[trigger] self.types[id] == TokenType::Byte
                ==> self.bytes[byte_piece(self.pieces[id])->0 as int] == id
    }

    /// The special list holds the control and user-defined tokens, each
    /// once, the longest first and equal lengths by id.
    pub open spec fn specials_complete(self) -> bool {
        &&& forall|k: int|
            0 <= k < self.specials.len() ==> {
                let id = (#[trigger] self.specials[k]).1;
                &&& (id as int) < self.pieces.len()
                &&& self.pieces[id as int] == self.specials[k].0
                &&& self.types[id as int].special()
            }
        &&& forall|id: int|
            0 <= id < self.types.len() && (#[trigger] self.types[id]).special()
                ==> self.specials.contains((self.pieces[id], id as u32))
        &&& longest_first(self.specials)
    }

    pub open spec fn wf(self) -> bool {
        &&& self.pieces.len() == self.types.len() <= u32::MAX
        &&& self.pieces.no_duplicates()
        &&& forall|id: int|
            0 <= id < self.types.len() && #[trigger] self.types[id] == TokenType::Byte
                ==> byte_piece(self.pieces[id]) is Some
        &&& self.merges_spell()
        &&& self.bytes_complete()
        &&& self.specials_complete()
        &&& self.piece(self.bos) == Some("<bos>"@)
        &&& self.piece(self.eos) == Some("<eos>"@)
        &&& self.piece(self.pad) == Some("<pad>"@)
        &&& self.piece(self.unk) == Some("<unk>"@)
        &&& self.piece(self.eot) == Some("<turn|>"@)
    }
}

/// Pieces by descending byte length; equal lengths by ascending id.
pub open spec fn longest_first(list: Seq<(Seq<char>, u32)>) -> bool {
    forall|i: int, j: int|
        0 <= i < j < list.len() ==> {
            ||| byte_len(#[trigger] list[i].0) > byte_len(#[trigger] list[j].0)
            ||| byte_len(list[i].0) == byte_len(list[j].0) && list[i].1 < list[j].1
        }
}

/// What is wrong with the token `id`, given the tokens before it.
pub open spec fn token_fault(
    tokens: Seq<Seq<char>>,
    raw_types: Seq<i32>,
    id: int,
) -> Option<VocabFault> {
    match token_type_of(raw_types[id]) {
        None => Some(VocabFault::BadTokenType { id: id as u32, raw: raw_types[id] }),
        Some(ty) => if tokens.take(id).contains(tokens[id]) {
            Some(VocabFault::DuplicatePiece(tokens[id]))
        } else if ty == TokenType::Byte && byte_piece(tokens[id]) is None {
            Some(VocabFault::BadByteToken(tokens[id]))
        } else {
            None
        },
    }
}

/// The fault of the first faulty token among the first `n`.
pub open spec fn first_token_fault(
    tokens: Seq<Seq<char>>,
    raw_types: Seq<i32>,
    n: nat,
) -> Option<VocabFault>
    decreases n,
{
    if n == 0 {
        None
    } else {
        match first_token_fault(tokens, raw_types, (n - 1) as nat) {
            Some(f) => Some(f),
            None => token_fault(tokens, raw_types, n - 1),
        }
    }
}

/// The token types that stored ids stand for.
pub open spec fn types_of(raw_types: Seq<i32>) -> Seq<TokenType> {
    raw_types.map_values(|raw: i32| token_type_of(raw)->0)
}

/// Number of byte tokens among the first `n`.
pub open spec fn byte_token_count(raw_types: Seq<i32>, n: nat) -> nat
    decreases n,
{
    if n == 0 {
        0
    } else {
        byte_token_count(raw_types, (n - 1) as nat) + if token_type_of(raw_types[n - 1]) == Some(
            TokenType::Byte,
        ) {
            1nat
        } else {
            0nat
        }
    }
}

/// The byte-fallback table after the first `n` tokens; `u32::MAX` marks a
/// byte that has no token yet.
pub open spec fn byte_table(tokens: Seq<Seq<char>>, raw_types: Seq<i32>, n: nat) -> Seq<u32>
    decreases n,
{
    if n == 0 {
        Seq::new(256, |b: int| u32::MAX)
    } else {
        let before = byte_table(tokens, raw_types, (n - 1) as nat);
        if token_type_of(raw_types[n - 1]) == Some(TokenType::Byte) {
            before.update(byte_piece(tokens[n - 1])->0 as int, (n - 1) as u32)
        } else {
            before
        }
    }
}

/// Where a special of byte length `len` goes in a list that is ordered
/// longest first: behind everything at least as long.
pub open spec fn special_slot(list: Seq<(Seq<char>, u32)>, len: nat) -> nat
    decreases list.len(),
{
    if list.len() == 0 || byte_len(list.last().0) >= len {
        list.len()
    } else {
        special_slot(list.drop_last(), len)
    }
}

/// The special tokens among the first `n`, longest first; tokens of equal
/// length stay in id order.
pub open spec fn special_list(tokens: Seq<Seq<char>>, raw_types: Seq<i32>, n: nat) -> Seq<
    (Seq<char>, u32),
>
    decreases n,
{
    if n == 0 {
        Seq::empty()
    } else {
        let before = special_list(tokens, raw_types, (n - 1) as nat);
        match token_type_of(raw_types[n - 1]) {
            Some(ty) => if ty.special() {
                before.insert(
                    special_slot(before, byte_len(tokens[n - 1])) as int,
                    (tokens[n - 1], (n - 1) as u32),
                )
            } else {
                before
            },
            None => before,
        }
    }
}

/// `at` is the one space of a merge entry, with text on both sides of it.
pub open spec fn splits_at(merge: Seq<char>, at: int) -> bool {
    &&& 0 < at < merge.len() - 1
    &&& merge[at] == ' '
    &&& forall|j: int| 0 <= j < merge.len() && j != at ==> merge[j] != ' '
}

/// The two pieces of a merge entry.
pub open spec fn merge_halves(merge: Seq<char>) -> Option<(Seq<char>, Seq<char>)> {
    if exists|at: int| splits_at(merge, at) {
        let at = choose|at: int| splits_at(merge, at);
        Some((merge.take(at), merge.skip(at + 1)))
    } else {
        None
    }
}

/// A merge entry in terms of token ids: left, right, merged.
pub open spec fn merge_ids(tokens: Seq<Seq<char>>, merge: Seq<char>) -> Option<(u32, u32, u32)> {
    match merge_halves(merge) {
        None => None,
        Some((left, right)) => match (
            position_of(tokens, left),
            position_of(tokens, right),
            position_of(tokens, left + right),
        ) {
            (Some(l), Some(r), Some(m)) => Some((l, r, m)),
            _ => None,
        },
    }
}

/// The fault of the first faulty merge entry among the first `n`.
pub open spec fn first_merge_fault(
    tokens: Seq<Seq<char>>,
    merges: Seq<Seq<char>>,
    n: nat,
) -> Option<VocabFault>
    decreases n,
{
    if n == 0 {
        None
    } else {
        match first_merge_fault(tokens, merges, (n - 1) as nat) {
            Some(f) => Some(f),
            None => if merge_halves(merges[n - 1]) is None {
                Some(
                    VocabFault::BadMergeFormat { index: (n - 1) as usize, merge: merges[n - 1] },
                )
            } else if merge_ids(tokens, merges[n - 1]) is None {
                Some(
                    VocabFault::MergePieceMissing { index: (n - 1) as usize, merge: merges[n - 1] },
                )
            } else {
                None
            },
        }
    }
}

/// The merge table of the first `n` entries; of two entries for one pair the
/// later one counts.
pub open spec fn merge_table(tokens: Seq<Seq<char>>, merges: Seq<Seq<char>>, n: nat) -> Map<
    (u32, u32),
    (u32, u32),
>
    decreases n,
{
    if n == 0 {
        Map::empty()
    } else {
        let (l, r, m) = merge_ids(tokens, merges[n - 1])->0;
        merge_table(tokens, merges, (n - 1) as nat).insert((l, r), ((n - 1) as u32, m))
    }
}

/// A declared special id, checked against the piece it must name.
pub open spec fn declared_id(
    declared: Result<u64, MetaError>,
    key: Seq<char>,
    expected: Seq<char>,
    tokens: Seq<Seq<char>>,
) -> Result<u32, VocabFault> {
    match declared {
        Err(e) => Err(VocabFault::Meta(e.detail@)),
        Ok(id) => if id as int >= tokens.len() {
            Err(VocabFault::IdOutOfRange(id))
        } else if tokens[id as int] == expected {
            Ok(id as u32)
        } else {
            Err(
                VocabFault::SpecialIdMismatch {
                    key,
                    id: id as u32,
                    piece: tokens[id as int],
                    expected,
                },
            )
        },
    }
}

/// What the metadata checks that come before the token list find.
pub open spec fn header_fault(meta: TokenizerMetadata) -> Option<VocabFault> {
    match meta.model {
        Err(e) => Some(VocabFault::Meta(e.detail@)),
        Ok(model) => if model@ != "gemma4"@ {
            Some(VocabFault::WrongModel(model@))
        } else {
            match meta.add_bos_token {
                Err(e) => Some(VocabFault::Meta(e.detail@)),
                Ok(Some(true)) => Some(
                    VocabFault::UnsupportedFlag { key: "tokenizer.ggml.add_bos_token"@ },
                ),
                Ok(_) => match meta.add_space_prefix {
                    Err(e) => Some(VocabFault::Meta(e.detail@)),
                    Ok(Some(true)) => Some(
                        VocabFault::UnsupportedFlag { key: "tokenizer.ggml.add_space_prefix"@ },
                    ),
                    Ok(_) => None,
                },
            }
        },
    }
}

/// The token list with its stored types, where the arrays are present and of
/// one length.
pub open spec fn token_arrays(meta: TokenizerMetadata) -> Result<
    (Seq<Seq<char>>, Seq<i32>),
    VocabFault,
> {
    match (meta.tokens, meta.scores_len, meta.token_type) {
        (Err(e), _, _) => Err(VocabFault::Meta(e.detail@)),
        (Ok(_), Err(e), _) => Err(VocabFault::Meta(e.detail@)),
        (Ok(_), Ok(_), Err(e)) => Err(VocabFault::Meta(e.detail@)),
        (Ok(tokens), Ok(scores), Ok(types)) => if tokens@.len() != scores || tokens@.len()
            != types@.len() {
            Err(
                VocabFault::ArrayLengths {
                    tokens: tokens@.len() as usize,
                    scores,
                    types: types@.len() as usize,
                },
            )
        } else {
            Ok((texts(tokens@), types@))
        },
    }
}

/// What is wrong with the token list as a whole.
pub open spec fn tokens_fault(tokens: Seq<Seq<char>>, raw_types: Seq<i32>) -> Option<VocabFault> {
    match first_token_fault(tokens, raw_types, tokens.len()) {
        Some(f) => Some(f),
        None => {
            let count = byte_token_count(raw_types, tokens.len());
            if count != 256 || byte_table(tokens, raw_types, tokens.len()).contains(u32::MAX) {
                Some(VocabFault::IncompleteByteTable(count as usize))
            } else {
                None
            }
        },
    }
}

/// The named special ids: bos, eos, pad, unk and end of turn.
pub open spec fn named_ids(meta: TokenizerMetadata, tokens: Seq<Seq<char>>) -> Result<
    (u32, u32, u32, u32, u32),
    VocabFault,
> {
    let bos = declared_id(meta.bos_token_id, "tokenizer.ggml.bos_token_id"@, "<bos>"@, tokens);
    let eos = declared_id(meta.eos_token_id, "tokenizer.ggml.eos_token_id"@, "<eos>"@, tokens);
    let pad = declared_id(
        meta.padding_token_id,
        "tokenizer.ggml.padding_token_id"@,
        "<pad>"@,
        tokens,
    );
    let unk = declared_id(
        meta.unknown_token_id,
        "tokenizer.ggml.unknown_token_id"@,
        "<unk>"@,
        tokens,
    );
    match (bos, eos, pad, unk, position_of(tokens, "<turn|>"@)) {
        (Err(f), _, _, _, _) => Err(f),
        (Ok(_), Err(f), _, _, _) => Err(f),
        (Ok(_), Ok(_), Err(f), _, _) => Err(f),
        (Ok(_), Ok(_), Ok(_), Err(f), _) => Err(f),
        (Ok(_), Ok(_), Ok(_), Ok(_), None) => Err(
            VocabFault::SpecialIdMismatch {
                key: "<turn|> lookup"@,
                id: 0,
                piece: Seq::empty(),
                expected: "<turn|>"@,
            },
        ),
        (Ok(bos), Ok(eos), Ok(pad), Ok(unk), Some(eot)) => Ok((bos, eos, pad, unk, eot)),
    }
}

/// The vocabulary that metadata describes, or the first thing wrong with it.
pub open spec fn vocab_of(meta: TokenizerMetadata) -> Result<VocabView, VocabFault> {
    match (header_fault(meta), token_arrays(meta)) {
        (Some(f), _) => Err(f),
        (None, Err(f)) => Err(f),
        (None, Ok((tokens, raw_types))) => match (tokens_fault(tokens, raw_types), meta.merges) {
            (Some(f), _) => Err(f),
            (None, Err(e)) => Err(VocabFault::Meta(e.detail@)),
            (None, Ok(merges)) => {
                let n = merges@.len();
                match (
                    first_merge_fault(tokens, texts(merges@), n),
                    named_ids(meta, tokens),
                ) {
                    (Some(f), _) => Err(f),
                    (None, Err(f)) => Err(f),
                    (None, Ok((bos, eos, pad, unk, eot))) => Ok(
                        VocabView {
                            pieces: tokens,
                            types: types_of(raw_types),
                            merges: merge_table(tokens, texts(merges@), n),
                            bytes: byte_table(tokens, raw_types, tokens.len()),
                            specials: special_list(tokens, raw_types, tokens.len()),
                            bos,
                            eos,
                            pad,
                            unk,
                            eot,
                        },
                    ),
                }
            },
        },
    }
}

/// Every id fits in 32 bits, and so does every merge rank.
pub open spec fn ids_fit(meta: TokenizerMetadata) -> bool {
    &&& meta.tokens matches Ok(tokens) ==> tokens@.len() <= u32::MAX
    &&& meta.merges matches Ok(merges) ==> merges@.len() <= u32::MAX
}

impl TokenizerMetadata {
    /// Whether every id and every merge rank fits in 32 bits.
    pub fn fits(&self) -> (r: bool)
        ensures
            r == ids_fit(*self),
    {
        let tokens: usize = match &self.tokens {
            Ok(tokens) => tokens.len(),
            Err(_) => 0,
        };
        let merges: usize = match &self.merges {
            Ok(merges) => merges.len(),
            Err(_) => 0,
        };
        tokens <= 0xffff_ffff && merges <= 0xffff_ffff
    }
}

proof fn lemma_position(pieces: Seq<Seq<char>>, piece: Seq<char>)
    requires
        pieces.len() <= u32::MAX,
    ensures
        position_of(pieces, piece) matches Some(id) ==> {
            &&& (id as int) < pieces.len()
            &&& pieces[id as int] == piece
        },
{
}

proof fn lemma_first_fault_none(tokens: Seq<Seq<char>>, raw_types: Seq<i32>, n: nat)
    requires
        first_token_fault(tokens, raw_types, n) is None,
    ensures
        forall|i: int| 0 <= i < n ==> #[trigger] token_fault(tokens, raw_types, i) is None,
    decreases n,
{
    if n > 0 {
        lemma_first_fault_none(tokens, raw_types, (n - 1) as nat);
    }
}

proof fn lemma_first_fault_stays(tokens: Seq<Seq<char>>, raw_types: Seq<i32>, n: nat, m: nat)
    requires
        first_token_fault(tokens, raw_types, n) is Some,
        n <= m,
    ensures
        first_token_fault(tokens, raw_types, m) == first_token_fault(tokens, raw_types, n),
    decreases m,
{
    if n < m {
        lemma_first_fault_stays(tokens, raw_types, n, (m - 1) as nat);
    }
}

proof fn lemma_merge_fault_stays(tokens: Seq<Seq<char>>, merges: Seq<Seq<char>>, n: nat, m: nat)
    requires
        first_merge_fault(tokens, merges, n) is Some,
        n <= m,
    ensures
        first_merge_fault(tokens, merges, m) == first_merge_fault(tokens, merges, n),
    decreases m,
{
    if n < m {
        lemma_merge_fault_stays(tokens, merges, n, (m - 1) as nat);
    }
}

proof fn lemma_byte_count_bound(raw_types: Seq<i32>, n: nat)
    ensures
        byte_token_count(raw_types, n) <= n,
    decreases n,
{
    if n > 0 {
        lemma_byte_count_bound(raw_types, (n - 1) as nat);
    }
}

proof fn lemma_byte_table(tokens: Seq<Seq<char>>, raw_types: Seq<i32>, n: nat)
    requires
        n <= tokens.len() == raw_types.len(),
        n <= u32::MAX,
        first_token_fault(tokens, raw_types, n) is None,
    ensures
        byte_table(tokens, raw_types, n).len() == 256,
        forall|b: int|
            0 <= b < 256 ==> {
                let id = #[trigger] byte_table(tokens, raw_types, n)[b];
                id != u32::MAX ==> {
                    &&& id < n
                    &&& token_type_of(raw_types[id as int]) == Some(TokenType::Byte)
                    &&& byte_piece(tokens[id as int]) == Some(b as u8)
                }
            },
    decreases n,
{
    if n > 0 {
        lemma_byte_table(tokens, raw_types, (n - 1) as nat);
        lemma_first_fault_none(tokens, raw_types, n);
        assert(token_fault(tokens, raw_types, n - 1) is None);
    }
}

/// How many of the first `m` bytes have a token.
spec fn filled(table: Seq<u32>, m: nat) -> nat
    decreases m,
{
    if m == 0 {
        0
    } else {
        filled(table, (m - 1) as nat) + if table[m - 1] != u32::MAX {
            1nat
        } else {
            0nat
        }
    }
}

proof fn lemma_filled_update(table: Seq<u32>, b: int, id: u32, m: nat)
    requires
        0 <= b < table.len(),
        m <= table.len(),
        id != u32::MAX,
    ensures
        filled(table.update(b, id), m) == filled(table, m) + if b < m && table[b] == u32::MAX {
            1int
        } else {
            0int
        },
    decreases m,
{
    if m > 0 {
        lemma_filled_update(table, b, id, (m - 1) as nat);
    }
}

proof fn lemma_filled_full(table: Seq<u32>, m: nat)
    requires
        m <= table.len(),
        !table.contains(u32::MAX),
    ensures
        filled(table, m) == m,
    decreases m,
{
    if m > 0 {
        lemma_filled_full(table, (m - 1) as nat);
        assert(table.contains(table[m - 1]));
    }
}

proof fn lemma_filled_none(m: nat)
    requires
        m <= 256,
    ensures
        filled(Seq::new(256, |b: int| u32::MAX), m) == 0,
    decreases m,
{
    if m > 0 {
        lemma_filled_none((m - 1) as nat);
    }
}

/// Where there are no more byte tokens than bytes with a token, every byte
/// token is the one of its byte.
proof fn lemma_bytes_kept(tokens: Seq<Seq<char>>, raw_types: Seq<i32>, n: nat)
    requires
        n <= tokens.len() == raw_types.len(),
        n <= u32::MAX,
        first_token_fault(tokens, raw_types, n) is None,
    ensures
        byte_table(tokens, raw_types, n).len() == 256,
        filled(byte_table(tokens, raw_types, n), 256) <= byte_token_count(raw_types, n),
        filled(byte_table(tokens, raw_types, n), 256) == byte_token_count(raw_types, n)
            ==> forall|id: int|
            0 <= id < n && token_type_of(#[trigger] raw_types[id]) == Some(TokenType::Byte)
                ==> byte_table(tokens, raw_types, n)[byte_piece(tokens[id])->0 as int] == id,
    decreases n,
{
    if n == 0 {
        lemma_filled_none(256);
    } else {
        let before = byte_table(tokens, raw_types, (n - 1) as nat);
        lemma_bytes_kept(tokens, raw_types, (n - 1) as nat);
        if token_type_of(raw_types[n - 1]) == Some(TokenType::Byte) {
            let b = byte_piece(tokens[n - 1])->0 as int;
            lemma_filled_update(before, b, (n - 1) as u32, 256);
        }
    }
}

proof fn lemma_special_slot(list: Seq<(Seq<char>, u32)>, len: nat)
    requires
        longest_first(list),
    ensures
        special_slot(list, len) <= list.len(),
        forall|i: int|
            0 <= i < special_slot(list, len) ==> byte_len((#[trigger] list[i]).0) >= len,
        forall|i: int|
            special_slot(list, len) <= i < list.len() ==> byte_len((#[trigger] list[i]).0) < len,
    decreases list.len(),
{
    if list.len() == 0 || byte_len(list.last().0) >= len {
        assert forall|i: int| 0 <= i < list.len() implies byte_len((#[trigger] list[i]).0)
            >= len by {
            if i < list.len() - 1 {
                assert(byte_len(list[i].0) >= byte_len(list[list.len() - 1].0));
            }
        }
    } else {
        let front = list.drop_last();
        assert(longest_first(front)) by {
            assert forall|i: int, j: int| 0 <= i < j < front.len() implies {
                ||| byte_len(#[trigger] front[i].0) > byte_len(#[trigger] front[j].0)
                ||| byte_len(front[i].0) == byte_len(front[j].0) && front[i].1 < front[j].1
            } by {
                assert(front[i] == list[i] && front[j] == list[j]);
            }
        }
        lemma_special_slot(front, len);
        assert forall|i: int| special_slot(list, len) <= i < list.len() implies byte_len(
            (#[trigger] list[i]).0,
        ) < len by {
            if i < list.len() - 1 {
                assert(front[i] == list[i]);
            }
        }
        assert forall|i: int| 0 <= i < special_slot(list, len) implies byte_len(
            (#[trigger] list[i]).0,
        ) >= len by {
            assert(front[i] == list[i]);
        }
    }
}

proof fn lemma_special_list(tokens: Seq<Seq<char>>, raw_types: Seq<i32>, n: nat)
    requires
        n <= tokens.len() == raw_types.len(),
        n <= u32::MAX,
    ensures
        longest_first(special_list(tokens, raw_types, n)),
        forall|k: int|
            0 <= k < special_list(tokens, raw_types, n).len() ==> {
                let e = #[trigger] special_list(tokens, raw_types, n)[k];
                &&& e.1 < n
                &&& tokens[e.1 as int] == e.0
                &&& token_type_of(raw_types[e.1 as int]) is Some
                &&& token_type_of(raw_types[e.1 as int])->0.special()
            },
        forall|id: int|
            0 <= id < n && (token_type_of(#[trigger] raw_types[id]) matches Some(ty)
                && ty.special()) ==> special_list(tokens, raw_types, n).contains(
                (tokens[id], id as u32),
            ),
    decreases n,
{
    if n > 0 {
        let before = special_list(tokens, raw_types, (n - 1) as nat);
        let list = special_list(tokens, raw_types, n);
        lemma_special_list(tokens, raw_types, (n - 1) as nat);
        let ty = token_type_of(raw_types[n - 1]);
        if ty is Some && ty->0.special() {
            let e = (tokens[n - 1], (n - 1) as u32);
            let slot = special_slot(before, byte_len(e.0)) as int;
            lemma_special_slot(before, byte_len(e.0));
            assert(list == before.insert(slot, e));
            assert forall|i: int, j: int| 0 <= i < j < list.len() implies {
                ||| byte_len(#[trigger] list[i].0) > byte_len(#[trigger] list[j].0)
                ||| byte_len(list[i].0) == byte_len(list[j].0) && list[i].1 < list[j].1
            } by {
                let bi = if i < slot {
                    i
                } else {
                    i - 1
                };
                let bj = if j < slot {
                    j
                } else {
                    j - 1
                };
                if i == slot {
                    assert(list[j] == before[bj]);
                } else if j == slot {
                    assert(list[i] == before[bi]);
                } else {
                    assert(list[i] == before[bi]);
                    assert(list[j] == before[bj]);
                }
            }
            assert forall|k: int| 0 <= k < list.len() implies {
                let f = #[trigger] list[k];
                &&& f.1 < n
                &&& tokens[f.1 as int] == f.0
                &&& token_type_of(raw_types[f.1 as int]) is Some
                &&& token_type_of(raw_types[f.1 as int])->0.special()
            } by {
                if k < slot {
                    assert(list[k] == before[k]);
                } else if k > slot {
                    assert(list[k] == before[k - 1]);
                }
            }
            assert forall|id: int|
                0 <= id < n && (token_type_of(#[trigger] raw_types[id]) matches Some(ty)
                    && ty.special()) implies list.contains((tokens[id], id as u32)) by {
                if id == n - 1 {
                    assert(list[slot] == e);
                } else {
                    let f = (tokens[id], id as u32);
                    let k = choose|k: int| 0 <= k < before.len() && before[k] == f;
                    assert(before.contains(f));
                    if k < slot {
                        assert(list[k] == f);
                    } else {
                        assert(list[k + 1] == f);
                    }
                }
            }
        }
    }
}

proof fn lemma_merge_table(tokens: Seq<Seq<char>>, merges: Seq<Seq<char>>, n: nat)
    requires
        n <= merges.len(),
        tokens.len() <= u32::MAX,
        first_merge_fault(tokens, merges, n) is None,
    ensures
        forall|l: u32, r: u32| #[trigger]
            merge_table(tokens, merges, n).contains_key((l, r)) ==> {
                let m = merge_table(tokens, merges, n)[(l, r)].1;
                &&& (l as int) < tokens.len()
                &&& (r as int) < tokens.len()
                &&& (m as int) < tokens.len()
                &&& tokens[l as int].len() > 0
                &&& tokens[r as int].len() > 0
                &&& tokens[m as int] == tokens[l as int] + tokens[r as int]
            },
    decreases n,
{
    if n > 0 {
        lemma_merge_table(tokens, merges, (n - 1) as nat);
        let merge = merges[n - 1];
        let at = choose|at: int| splits_at(merge, at);
        assert(splits_at(merge, at));
        let (l, r, m) = merge_ids(tokens, merge)->0;
        lemma_position(tokens, merge.take(at));
        lemma_position(tokens, merge.skip(at + 1));
        lemma_position(tokens, merge.take(at) + merge.skip(at + 1));
        let before = merge_table(tokens, merges, (n - 1) as nat);
        let table = merge_table(tokens, merges, n);
        assert(table == before.insert((l, r), ((n - 1) as u32, m)));
        assert forall|a: u32, b: u32| #[trigger] table.contains_key((a, b)) implies {
            let c = table[(a, b)].1;
            &&& (a as int) < tokens.len()
            &&& (b as int) < tokens.len()
            &&& (c as int) < tokens.len()
            &&& tokens[a as int].len() > 0
            &&& tokens[b as int].len() > 0
            &&& tokens[c as int] == tokens[a as int] + tokens[b as int]
        } by {
            if (a, b) != (l, r) {
                assert(before.contains_key((a, b)));
            }
        }
    }
}

/// Metadata that passes every check describes a well-formed vocabulary.
proof fn lemma_vocab_wf(meta: TokenizerMetadata)
    requires
        ids_fit(meta),
        vocab_of(meta) is Ok,
    ensures
        vocab_of(meta)->Ok_0.wf(),
{
    let v = vocab_of(meta)->Ok_0;
    let (tokens, raw_types) = token_arrays(meta)->Ok_0;
    let merges = texts(meta.merges->Ok_0@);
    lemma_first_fault_none(tokens, raw_types, tokens.len());
    lemma_byte_table(tokens, raw_types, tokens.len());
    lemma_special_list(tokens, raw_types, tokens.len());
    lemma_merge_table(tokens, merges, merges.len());
    lemma_no_duplicates(tokens, raw_types);
    assert forall|id: int|
        0 <= id < v.types.len() && #[trigger] v.types[id] == TokenType::Byte implies byte_piece(
        v.pieces[id],
    ) is Some by {
        assert(token_fault(tokens, raw_types, id) is None);
    }
    assert(v.bytes_complete()) by {
        assert forall|b: int| 0 <= b < 256 implies {
            &&& (#[trigger] v.bytes[b] as int) < v.pieces.len()
            &&& v.byte_of(v.bytes[b]) == Some(b as u8)
        } by {
            assert(v.bytes.contains(v.bytes[b]));
        }
        lemma_bytes_kept(tokens, raw_types, tokens.len());
        lemma_filled_full(v.bytes, 256);
        assert forall|id: int|
            0 <= id < v.types.len() && #[trigger] v.types[id] == TokenType::Byte implies v.bytes[byte_piece(
            v.pieces[id],
        )->0 as int] == id by {
            assert(token_fault(tokens, raw_types, id) is None);
            assert(token_type_of(raw_types[id]) == Some(TokenType::Byte));
        }
    }
    assert(v.specials_complete()) by {
        assert forall|id: int|
            0 <= id < v.types.len() && (#[trigger] v.types[id]).special() implies v.specials.contains(
            (v.pieces[id], id as u32),
        ) by {
            assert(token_fault(tokens, raw_types, id) is None);
            assert(token_type_of(raw_types[id]) is Some);
        }
    }
}

/// A list of specials with their pieces as texts.
pub open spec fn special_texts(list: Seq<(String, u32)>) -> Seq<(Seq<char>, u32)> {
    list.map_values(|e: (String, u32)| (e.0@, e.1))
}

/// `lookup` finds exactly the first `n` pieces.
spec fn finds(lookup: Map<Seq<char>, u32>, pieces: Seq<Seq<char>>) -> bool {
    &&& forall|p: Seq<char>| #[trigger] lookup.contains_key(p) <==> pieces.contains(p)
    &&& forall|p: Seq<char>| #[trigger]
        lookup.contains_key(p) ==> {
            &&& (lookup[p] as int) < pieces.len()
            &&& pieces[lookup[p] as int] == p
        }
}

/// `bytes` gives the byte of exactly the byte tokens.
spec fn gives_bytes(bytes: Map<u32, u8>, types: Seq<TokenType>) -> bool {
    forall|id: u32| #[trigger]
        bytes.contains_key(id) <==> {
            &&& (id as int) < types.len()
            &&& types[id as int] == TokenType::Byte
        }
}

/// The key under which a pair is stored in the merge table.
spec fn pair_key(left: u32, right: u32) -> u64 {
    (left * 0x1_0000_0000 + right) as u64
}

fn key_of(left: u32, right: u32) -> (key: u64)
    ensures
        key == pair_key(left, right),
{
    left as u64 * 0x1_0000_0000 + right as u64
}

/// A merge table by pairs.
spec fn by_pairs(table: Map<u64, (u32, u32)>) -> Map<(u32, u32), (u32, u32)> {
    Map::new(
        |pair: (u32, u32)| table.contains_key(pair_key(pair.0, pair.1)),
        |pair: (u32, u32)| table[pair_key(pair.0, pair.1)],
    )
}

proof fn lemma_by_pairs_insert(table: Map<u64, (u32, u32)>, l: u32, r: u32, v: (u32, u32))
    ensures
        by_pairs(table.insert(pair_key(l, r), v)) =~= by_pairs(table).insert((l, r), v),
{
}

/// What one pass over the token list collects.
struct TokenTables {
    pieces: Vec<String>,
    types: Vec<TokenType>,
    piece_to_id: StringHashMap<u32>,
    byte_to_id: Vec<u32>,
    id_to_byte: HashMap<u32, u8>,
    specials: Vec<(String, u32)>,
    byte_count: usize,
}

impl TokenTables {
    /// The tables describe the first `n` tokens.
    spec fn covers(self, tokens: Seq<Seq<char>>, raw_types: Seq<i32>, n: nat) -> bool {
        &&& texts(self.pieces@) == tokens.take(n as int)
        &&& self.types@ == types_of(raw_types).take(n as int)
        &&& finds(self.piece_to_id@, tokens.take(n as int))
        &&& self.byte_to_id@ == byte_table(tokens, raw_types, n)
        &&& gives_bytes(self.id_to_byte@, types_of(raw_types).take(n as int))
        &&& forall|id: u32| #[trigger]
            self.id_to_byte@.contains_key(id) ==> Some(self.id_to_byte@[id]) == byte_piece(
                tokens[id as int],
            )
        &&& special_texts(self.specials@) == special_list(tokens, raw_types, n)
        &&& self.byte_count == byte_token_count(raw_types, n)
    }
}

/// Puts a special token behind every special that is at least as long.
fn insert_special(list: &mut Vec<(String, u32)>, piece: &String, id: u32)
    ensures
        special_texts(final(list)@) == special_texts(old(list)@).insert(
            special_slot(special_texts(old(list)@), byte_len(piece@)) as int,
            (piece@, id),
        ),
{
    let len = utf8_len(piece.as_str());
    let mut slot: usize = list.len();
    let ghost all = special_texts(list@);
    assert(all.take(slot as int) =~= all);
    while slot > 0 && utf8_len(list[slot - 1].0.as_str()) < len
        invariant
            slot <= list@.len(),
            all == special_texts(list@),
            len == byte_len(piece@),
            special_slot(all, len as nat) == special_slot(all.take(slot as int), len as nat),
        decreases slot,
    {
        assert(all.take(slot as int).drop_last() =~= all.take(slot - 1));
        assert(all.take(slot as int).last() == all[slot - 1]);
        slot = slot - 1;
    }
    proof {
        let front = all.take(slot as int);
        if slot > 0 {
            assert(front.last() == all[slot - 1]);
        }
        assert(special_slot(front, len as nat) == slot);
    }
    let ghost before = list@;
    list.insert(slot, (piece.clone(), id));
    assert(special_texts(list@) =~= all.insert(slot as int, (piece@, id)));
}

fn scan_tokens(tokens: &Vec<String>, raw_types: &Vec<i32>) -> (r: Result<TokenTables, VocabError>)
    requires
        tokens@.len() == raw_types@.len(),
        tokens@.len() <= u32::MAX,
    ensures
        match r {
            Ok(t) => {
                &&& first_token_fault(texts(tokens@), raw_types@, tokens@.len()) is None
                &&& t.covers(texts(tokens@), raw_types@, tokens@.len())
            },
            Err(e) => first_token_fault(texts(tokens@), raw_types@, tokens@.len()) == Some(e@),
        },
{
    broadcast use group_hash_axioms;

    let ghost all = texts(tokens@);
    let ghost raws = raw_types@;
    let n: usize = tokens.len();
    let mut t = TokenTables {
        pieces: Vec::with_capacity(n),
        types: Vec::with_capacity(n),
        piece_to_id: StringHashMap::with_capacity(n),
        byte_to_id: vec![u32::MAX; 256],
        id_to_byte: HashMap::new(),
        specials: Vec::new(),
        byte_count: 0,
    };
    assert(t.byte_to_id@ =~= byte_table(all, raws, 0));
    assert(special_texts(t.specials@) =~= special_list(all, raws, 0));
    assert(texts(t.pieces@) =~= all.take(0));
    assert(t.types@ =~= types_of(raws).take(0));
    let mut i: usize = 0;
    while i < n
        invariant
            n == tokens@.len() == raw_types@.len(),
            n <= u32::MAX,
            i <= n,
            all == texts(tokens@),
            raws == raw_types@,
            first_token_fault(all, raws, i as nat) is None,
            t.covers(all, raws, i as nat),
        decreases n - i,
    {
        broadcast use group_hash_axioms;

        let id: u32 = i as u32;
        let piece = &tokens[i];
        let raw: i32 = raw_types[i];
        let ghost before = t;
        assert(piece@ == all[i as int]);
        let ty = match TokenType::from_raw(raw) {
            None => {
                proof {
                    lemma_first_fault_stays(all, raws, (i + 1) as nat, n as nat);
                }
                return Err(VocabError::BadTokenType { id, raw });
            },
            Some(ty) => ty,
        };
        if t.piece_to_id.contains_key(piece.as_str()) {
            proof {
                lemma_first_fault_stays(all, raws, (i + 1) as nat, n as nat);
            }
            return Err(VocabError::DuplicatePiece(piece.clone()));
        }
        t.piece_to_id.insert(piece.clone(), id);
        match ty {
            TokenType::Byte => {
                let b = match parse_byte_piece(piece.as_str()) {
                    None => {
                        proof {
                            lemma_first_fault_stays(all, raws, (i + 1) as nat, n as nat);
                        }
                        return Err(VocabError::BadByteToken(piece.clone()));
                    },
                    Some(b) => b,
                };
                proof {
                    lemma_byte_table(all, raws, i as nat);
                    lemma_byte_count_bound(raws, i as nat);
                }
                t.byte_to_id.set(b as usize, id);
                t.id_to_byte.insert(id, b);
                t.byte_count = t.byte_count + 1;
            },
            TokenType::Control => {
                insert_special(&mut t.specials, piece, id);
            },
            TokenType::UserDefined => {
                insert_special(&mut t.specials, piece, id);
            },
            _ => {},
        }
        t.pieces.push(piece.clone());
        t.types.push(ty);
        proof {
            let next = i + 1;
            assert(token_fault(all, raws, i as int) is None);
            assert(all.take(next) =~= all.take(i as int).push(all[i as int]));
            assert(types_of(raws).take(next) =~= types_of(raws).take(i as int).push(ty));
            assert(texts(t.pieces@) =~= all.take(next));
            assert(finds(t.piece_to_id@, all.take(next))) by {
                assert forall|p: Seq<char>| #[trigger]
                    t.piece_to_id@.contains_key(p) <==> all.take(next).contains(p) by {
                    if p == all[i as int] {
                        assert(all.take(next)[i as int] == p);
                    } else if all.take(next).contains(p) {
                        let k = choose|k: int| 0 <= k < next && all.take(next)[k] == p;
                        assert(all.take(i as int)[k] == p);
                        assert(before.piece_to_id@.contains_key(p));
                    } else if all.take(i as int).contains(p) {
                        let k = choose|k: int| 0 <= k < i && all.take(i as int)[k] == p;
                        assert(all.take(next)[k] == p);
                    }
                }
            }
        }
        i = i + 1;
    }
    Ok(t)
}

/// The two pieces of a merge entry, where it has exactly one space with text
/// on both sides.
fn split_merge(merge: &str) -> (r: Option<(String, String)>)
    ensures
        match r {
            None => merge_halves(merge@) is None,
            Some((left, right)) => merge_halves(merge@) == Some((left@, right@)),
        },
{
    let m = chars_of(merge);
    let mut at: usize = 0;
    while at < m.len() && m[at] != ' '
        invariant
            at <= m@.len(),
            forall|j: int| 0 <= j < at ==> m@[j] != ' ',
        decreases m@.len() - at,
    {
        at = at + 1;
    }
    if at == 0 || at >= m.len() || at == m.len() - 1 {
        return None;
    }
    let mut k: usize = at + 1;
    while k < m.len()
        invariant
            0 < at < k <= m@.len(),
            m@ == merge@,
            m@[at as int] == ' ',
            forall|j: int| 0 <= j < k && j != at ==> m@[j] != ' ',
        decreases m@.len() - k,
    {
        if m[k] == ' ' {
            assert forall|i: int| !splits_at(merge@, i) by {
                if splits_at(merge@, i) {
                    assert(m@[at as int] == ' ' && m@[k as int] == ' ');
                }
            }
            return None;
        }
        k = k + 1;
    }
    let mut left = String::new();
    let mut right = String::new();
    push_range(&mut left, &m, 0, at);
    push_range(&mut right, &m, at + 1, m.len());
    proof {
        assert(splits_at(merge@, at as int));
        let i = choose|i: int| splits_at(merge@, i);
        assert(i == at);
        assert(left@ =~= merge@.take(i));
        assert(right@ =~= merge@.skip(i + 1));
    }
    Some((left, right))
}

proof fn lemma_lookup(lookup: Map<Seq<char>, u32>, pieces: Seq<Seq<char>>, p: Seq<char>)
    requires
        finds(lookup, pieces),
        pieces.no_duplicates(),
        pieces.len() <= u32::MAX,
    ensures
        match position_of(pieces, p) {
            Some(id) => lookup.contains_key(p) && lookup[p] == id,
            None => !lookup.contains_key(p),
        },
{
    if pieces.contains(p) {
        assert(lookup.contains_key(p));
        lemma_position(pieces, p);
    }
}

fn scan_merges(merges: &Vec<String>, piece_to_id: &StringHashMap<u32>, tokens: &Vec<String>) -> (r:
    Result<HashMap<u64, (u32, u32)>, VocabError>)
    requires
        merges@.len() <= u32::MAX,
        tokens@.len() <= u32::MAX,
        texts(tokens@).no_duplicates(),
        finds(piece_to_id@, texts(tokens@)),
    ensures
        match r {
            Ok(table) => {
                &&& first_merge_fault(texts(tokens@), texts(merges@), merges@.len()) is None
                &&& by_pairs(table@) == merge_table(texts(tokens@), texts(merges@), merges@.len())
            },
            Err(e) => first_merge_fault(texts(tokens@), texts(merges@), merges@.len()) == Some(e@),
        },
{
    broadcast use group_hash_axioms;

    let ghost all = texts(tokens@);
    let ghost entries = texts(merges@);
    let n: usize = merges.len();
    let mut table: HashMap<u64, (u32, u32)> = HashMap::with_capacity(n);
    assert(by_pairs(table@) =~= merge_table(all, entries, 0));
    let mut i: usize = 0;
    while i < n
        invariant
            n == merges@.len(),
            n <= u32::MAX,
            i <= n,
            all == texts(tokens@),
            entries == texts(merges@),
            all.len() <= u32::MAX,
            all.no_duplicates(),
            finds(piece_to_id@, all),
            first_merge_fault(all, entries, i as nat) is None,
            by_pairs(table@) == merge_table(all, entries, i as nat),
        decreases n - i,
    {
        broadcast use group_hash_axioms;

        let merge = &merges[i];
        assert(merge@ == entries[i as int]);
        let (left, right) = match split_merge(merge.as_str()) {
            None => {
                proof {
                    lemma_merge_fault_stays(all, entries, (i + 1) as nat, n as nat);
                }
                return Err(VocabError::BadMergeFormat { index: i, merge: merge.clone() });
            },
            Some(halves) => halves,
        };
        let mut whole = left.clone();
        whole.append(right.as_str());
        proof {
            lemma_lookup(piece_to_id@, all, left@);
            lemma_lookup(piece_to_id@, all, right@);
            lemma_lookup(piece_to_id@, all, left@ + right@);
        }
        match (
            piece_to_id.get(left.as_str()),
            piece_to_id.get(right.as_str()),
            piece_to_id.get(whole.as_str()),
        ) {
            (Some(l), Some(r), Some(m)) => {
                proof {
                    lemma_by_pairs_insert(table@, *l, *r, (i as u32, *m));
                }
                table.insert(key_of(*l, *r), (i as u32, *m));
            },
            _ => {
                proof {
                    lemma_merge_fault_stays(all, entries, (i + 1) as nat, n as nat);
                }
                return Err(VocabError::MergePieceMissing { index: i, merge: merge.clone() });
            },
        }
        i = i + 1;
    }
    Ok(table)
}

fn meta_error(e: &MetaError) -> (r: VocabError)
    ensures
        r@ == VocabFault::Meta(e.detail@),
{
    VocabError::Meta(MetaError { detail: e.detail.clone() })
}

/// Checks a declared special id against the piece it must name.
fn special_id(
    declared: &Result<u64, MetaError>,
    key: &'static str,
    expected: &'static str,
    pieces: &Vec<String>,
) -> (r: Result<u32, VocabError>)
    requires
        pieces@.len() <= u32::MAX,
    ensures
        match r {
            Ok(id) => declared_id(*declared, key@, expected@, texts(pieces@)) == Ok::<
                u32,
                VocabFault,
            >(id),
            Err(e) => declared_id(*declared, key@, expected@, texts(pieces@)) == Err::<
                u32,
                VocabFault,
            >(e@),
        },
{
    match declared {
        Err(e) => Err(meta_error(e)),
        Ok(id) => {
            let id: u64 = *id;
            if id >= pieces.len() as u64 {
                return Err(VocabError::IdOutOfRange(id));
            }
            let piece = &pieces[id as usize];
            if same_text(piece.as_str(), expected) {
                Ok(id as u32)
            } else {
                Err(
                    VocabError::SpecialIdMismatch {
                        key,
                        id: id as u32,
                        piece: piece.clone(),
                        expected,
                    },
                )
            }
        },
    }
}

/// Immutable tokenizer tables.
pub struct Vocab {
    pieces: Vec<String>,
    types: Vec<TokenType>,
    piece_to_id: StringHashMap<u32>,
    /// `(left, right) -> (rank, merged)`; the rank is the merge-list index.
    merges: HashMap<u64, (u32, u32)>,
    /// Byte value -> id of its byte token.
    byte_to_id: Vec<u32>,
    /// id -> byte value for byte tokens.
    id_to_byte: HashMap<u32, u8>,
    /// Control and user-defined tokens, longest piece first.
    specials: Vec<(String, u32)>,
    bos: u32,
    eos: u32,
    pad: u32,
    unk: u32,
    /// `<turn|>`, the end-of-turn token and second stop token.
    eot: u32,
}

impl View for Vocab {
    type V = VocabView;

    closed spec fn view(&self) -> VocabView {
        VocabView {
            pieces: texts(self.pieces@),
            types: self.types@,
            merges: by_pairs(self.merges@),
            bytes: self.byte_to_id@,
            specials: special_texts(self.specials@),
            bos: self.bos,
            eos: self.eos,
            pad: self.pad,
            unk: self.unk,
            eot: self.eot,
        }
    }
}

/// The first `(Some, _)` of a flag that is set, or a failed lookup of one.
fn check_flag(flag: &Result<Option<bool>, MetaError>, key: &'static str) -> (r: Option<VocabError>)
    ensures
        match *flag {
            Err(e) => r matches Some(f) && f@ == VocabFault::Meta(e.detail@),
            Ok(Some(true)) => r matches Some(f) && f@ == (VocabFault::UnsupportedFlag { key: key@ }),
            Ok(_) => r is None,
        },
{
    match flag {
        Err(e) => Some(meta_error(e)),
        Ok(Some(set)) => if *set {
            Some(VocabError::UnsupportedFlag { key })
        } else {
            None
        },
        Ok(None) => None,
    }
}

impl Vocab {
    #[verifier::type_invariant]
    closed spec fn inv(self) -> bool {
        &&& self@.wf()
        &&& finds(self.piece_to_id@, texts(self.pieces@))
        &&& gives_bytes(self.id_to_byte@, self.types@)
        &&& forall|id: u32| #[trigger]
            self.id_to_byte@.contains_key(id) ==> Some(self.id_to_byte@[id]) == byte_piece(
                self.pieces@[id as int]@,
            )
    }

    /// Builds and validates the tables from `tokenizer.ggml.*` metadata.
    pub fn from_metadata(meta: &TokenizerMetadata) -> (r: Result<Self, VocabError>)
        requires
            ids_fit(*meta),
        ensures
            match r {
                Ok(v) => vocab_of(*meta) == Ok::<VocabView, VocabFault>(v@) && v@.wf(),
                Err(e) => vocab_of(*meta) == Err::<VocabView, VocabFault>(e@),
            },
    {
        match &meta.model {
            Err(e) => {
                return Err(meta_error(e));
            },
            Ok(model) => {
                if !same_text(model.as_str(), "gemma4") {
                    return Err(VocabError::WrongModel(model.clone()));
                }
            },
        }
        // The encoder hard-codes "no auto-BOS, no dummy space prefix"; refuse
        // metadata that asks for the opposite instead of silently diverging.
        if let Some(e) = check_flag(&meta.add_bos_token, "tokenizer.ggml.add_bos_token") {
            return Err(e);
        }
        if let Some(e) = check_flag(&meta.add_space_prefix, "tokenizer.ggml.add_space_prefix") {
            return Err(e);
        }
        assert(header_fault(*meta) is None);
        let tokens = match &meta.tokens {
            Err(e) => {
                return Err(meta_error(e));
            },
            Ok(tokens) => tokens,
        };
        let scores: usize = match &meta.scores_len {
            Err(e) => {
                return Err(meta_error(e));
            },
            Ok(n) => *n,
        };
        let raw_types = match &meta.token_type {
            Err(e) => {
                return Err(meta_error(e));
            },
            Ok(types) => types,
        };
        if tokens.len() != scores || tokens.len() != raw_types.len() {
            return Err(
                VocabError::ArrayLengths {
                    tokens: tokens.len(),
                    scores,
                    types: raw_types.len(),
                },
            );
        }
        let t = match scan_tokens(tokens, raw_types) {
            Err(e) => {
                return Err(e);
            },
            Ok(t) => t,
        };
        let ghost all = texts(tokens@);
        proof {
            assert(all.take(all.len() as int) =~= all);
            assert(types_of(raw_types@).take(all.len() as int) =~= types_of(raw_types@));
            lemma_byte_table(all, raw_types@, all.len());
        }
        if t.byte_count != 256 || has_gap(&t.byte_to_id) {
            return Err(VocabError::IncompleteByteTable(t.byte_count));
        }
        assert(tokens_fault(all, raw_types@) is None);
        let merge_strs = match &meta.merges {
            Err(e) => {
                return Err(meta_error(e));
            },
            Ok(merges) => merges,
        };
        proof {
            lemma_no_duplicates(all, raw_types@);
        }
        let merges = match scan_merges(merge_strs, &t.piece_to_id, tokens) {
            Err(e) => {
                return Err(e);
            },
            Ok(table) => table,
        };
        let bos = match special_id(
            &meta.bos_token_id,
            "tokenizer.ggml.bos_token_id",
            "<bos>",
            &t.pieces,
        ) {
            Err(e) => {
                return Err(e);
            },
            Ok(id) => id,
        };
        let eos = match special_id(
            &meta.eos_token_id,
            "tokenizer.ggml.eos_token_id",
            "<eos>",
            &t.pieces,
        ) {
            Err(e) => {
                return Err(e);
            },
            Ok(id) => id,
        };
        let pad = match special_id(
            &meta.padding_token_id,
            "tokenizer.ggml.padding_token_id",
            "<pad>",
            &t.pieces,
        ) {
            Err(e) => {
                return Err(e);
            },
            Ok(id) => id,
        };
        let unk = match special_id(
            &meta.unknown_token_id,
            "tokenizer.ggml.unknown_token_id",
            "<unk>",
            &t.pieces,
        ) {
            Err(e) => {
                return Err(e);
            },
            Ok(id) => id,
        };
        proof {
            lemma_lookup(t.piece_to_id@, all, "<turn|>"@);
        }
        let eot = match t.piece_to_id.get("<turn|>") {
            None => {
                return Err(
                    VocabError::SpecialIdMismatch {
                        key: "<turn|> lookup",
                        id: 0,
                        piece: String::new(),
                        expected: "<turn|>",
                    },
                );
            },
            Some(id) => *id,
        };
        proof {
            lemma_vocab_wf(*meta);
        }
        Ok(
            Vocab {
                pieces: t.pieces,
                types: t.types,
                piece_to_id: t.piece_to_id,
                merges,
                byte_to_id: t.byte_to_id,
                id_to_byte: t.id_to_byte,
                specials: t.specials,
                bos,
                eos,
                pad,
                unk,
                eot,
            },
        )
    }
}

proof fn lemma_no_duplicates(tokens: Seq<Seq<char>>, raw_types: Seq<i32>)
    requires
        first_token_fault(tokens, raw_types, tokens.len()) is None,
    ensures
        tokens.no_duplicates(),
{
    lemma_first_fault_none(tokens, raw_types, tokens.len());
    assert forall|i: int, j: int|
        0 <= i < tokens.len() && 0 <= j < tokens.len() && i != j implies tokens[i] != tokens[j] by {
        let (lo, hi) = if i < j {
            (i, j)
        } else {
            (j, i)
        };
        assert(token_fault(tokens, raw_types, hi) is None);
        assert(tokens.take(hi)[lo] == tokens[lo]);
        if tokens[lo] == tokens[hi] {
            assert(tokens.take(hi).contains(tokens[hi]));
        }
    }
}

/// Whether some byte has no token.
fn has_gap(byte_to_id: &Vec<u32>) -> (r: bool)
    ensures
        r == byte_to_id@.contains(u32::MAX),
{
    let mut b: usize = 0;
    while b < byte_to_id.len()
        invariant
            b <= byte_to_id@.len(),
            forall|k: int| 0 <= k < b ==> byte_to_id@[k] != u32::MAX,
        decreases byte_to_id@.len() - b,
    {
        if byte_to_id[b] == u32::MAX {
            return true;
        }
        b = b + 1;
    }
    false
}

/// Pieces and ids name each other: looking up a piece gives the one id that
/// has it.
pub proof fn lemma_id_names_piece(v: VocabView, piece: Seq<char>, id: u32)
    requires
        v.wf(),
    ensures
        v.id_of(piece) == Some(id) <==> v.piece(id) == Some(piece),
{
    lemma_position(v.pieces, piece);
    if v.piece(id) == Some(piece) {
        assert(v.pieces[id as int] == piece);
        assert(v.pieces.contains(piece));
    }
}

/// Each byte has its own token: that token stands for the byte, and no other
/// does.
pub proof fn lemma_byte_tokens(v: VocabView, b: u8, id: u32)
    requires
        v.wf(),
    ensures
        v.byte_of(v.bytes[b as int]) == Some(b),
        v.byte_of(id) == Some(b) <==> id == v.bytes[b as int],
{
    assert((v.bytes[b as int] as int) < v.pieces.len());
    if v.byte_of(id) == Some(b) {
        assert(v.types[id as int] == TokenType::Byte);
    }
}

impl Vocab {
    /// Number of tokens.
    pub fn len(&self) -> (n: usize)
        ensures
            n == self@.pieces.len(),
    {
        self.pieces.len()
    }

    pub fn is_empty(&self) -> (r: bool)
        ensures
            r == (self@.pieces.len() == 0),
    {
        self.pieces.len() == 0
    }

    /// The text of a token.
    pub fn piece(&self, id: u32) -> (r: Option<&str>)
        ensures
            match r {
                Some(p) => self@.piece(id) == Some(p@),
                None => self@.piece(id) is None,
            },
    {
        if (id as usize) < self.pieces.len() {
            Some(self.pieces[id as usize].as_str())
        } else {
            None
        }
    }

    pub fn token_type(&self, id: u32) -> (r: Option<TokenType>)
        ensures
            r == self@.token_type(id),
    {
        if (id as usize) < self.types.len() {
            Some(self.types[id as usize])
        } else {
            None
        }
    }

    /// The id of a piece.
    pub fn id_of(&self, piece: &str) -> (r: Option<u32>)
        ensures
            r == self@.id_of(piece@),
    {
        proof {
            use_type_invariant(self);
            lemma_lookup(self.piece_to_id@, texts(self.pieces@), piece@);
        }
        match self.piece_to_id.get(piece) {
            Some(id) => Some(*id),
            None => None,
        }
    }

    /// Rank and merged token of a pair.
    pub(crate) fn merge(&self, left: u32, right: u32) -> (r: Option<(u32, u32)>)
        ensures
            r == self@.merge(left, right),
    {
        broadcast use group_hash_axioms;

        match self.merges.get(&key_of(left, right)) {
            Some(m) => Some(*m),
            None => None,
        }
    }

    /// The token of a byte.
    pub fn byte_id(&self, b: u8) -> (id: u32)
        ensures
            id == self@.bytes[b as int],
            self@.byte_of(id) == Some(b),
    {
        proof {
            use_type_invariant(self);
            lemma_byte_tokens(self@, b, self@.bytes[b as int]);
        }
        self.byte_to_id[b as usize]
    }

    /// Byte value if `id` is a `<0xXX>` byte token.
    pub fn byte_of(&self, id: u32) -> (r: Option<u8>)
        ensures
            r == self@.byte_of(id),
            r is Some ==> (id as int) < self@.pieces.len(),
    {
        broadcast use group_hash_axioms;

        proof {
            use_type_invariant(self);
        }
        match self.id_to_byte.get(&id) {
            Some(b) => Some(*b),
            None => None,
        }
    }

    /// Control and user-defined tokens, longest first.
    pub(crate) fn specials(&self) -> (list: &Vec<(String, u32)>)
        ensures
            special_texts(list@) == self@.specials,
    {
        &self.specials
    }

    pub fn bos(&self) -> (id: u32)
        ensures
            id == self@.bos,
    {
        self.bos
    }

    pub fn eos(&self) -> (id: u32)
        ensures
            id == self@.eos,
    {
        self.eos
    }

    pub fn pad(&self) -> (id: u32)
        ensures
            id == self@.pad,
    {
        self.pad
    }

    pub fn unk(&self) -> (id: u32)
        ensures
            id == self@.unk,
    {
        self.unk
    }

    /// `<turn|>` (end of turn): generation stops on this or [`eos`](Self::eos).
    pub fn eot(&self) -> (id: u32)
        ensures
            id == self@.eot,
    {
        self.eot
    }
}

/// A merge entry: two pieces with a space between them.
pub open spec fn merge_line(left: Seq<char>, right: Seq<char>) -> Seq<char> {
    left + seq![' '] + right
}

proof fn lemma_line_splits(left: Seq<char>, right: Seq<char>)
    requires
        left.len() > 0,
        right.len() > 0,
        !left.contains(' '),
        !right.contains(' '),
    ensures
        merge_halves(merge_line(left, right)) == Some((left, right)),
{
    let merge = merge_line(left, right);
    let n = left.len() as int;
    assert forall|j: int| 0 <= j < merge.len() && j != n implies merge[j] != ' ' by {
        if j < n {
            assert(left.contains(left[j]));
        } else {
            assert(right.contains(right[j - n - 1]));
        }
    }
    assert(splits_at(merge, n));
    let at = choose|at: int| splits_at(merge, at);
    assert(splits_at(merge, at));
    assert(at == n);
    assert(merge.take(at) =~= left);
    assert(merge.skip(at + 1) =~= right);
}

proof fn lemma_halves_line(merge: Seq<char>)
    requires
        merge_halves(merge) is Some,
    ensures
        ({
            let (left, right) = merge_halves(merge)->0;
            &&& merge == merge_line(left, right)
            &&& left.len() > 0
            &&& right.len() > 0
            &&& !left.contains(' ')
            &&& !right.contains(' ')
        }),
{
    let at = choose|at: int| splits_at(merge, at);
    assert(splits_at(merge, at));
    let (left, right) = merge_halves(merge)->0;
    assert(merge =~= merge_line(left, right));
    assert forall|j: int| 0 <= j < left.len() implies left[j] != ' ' by {
        assert(merge[j] == left[j]);
    }
    assert forall|j: int| 0 <= j < right.len() implies right[j] != ' ' by {
        assert(merge[at + 1 + j] == right[j]);
    }
}

proof fn lemma_merge_faults_none(tokens: Seq<Seq<char>>, merges: Seq<Seq<char>>, n: nat)
    ensures
        first_merge_fault(tokens, merges, n) is None <==> forall|i: int|
            0 <= i < n ==> merge_ids(tokens, #[trigger] merges[i]) is Some,
    decreases n,
{
    if n > 0 {
        lemma_merge_faults_none(tokens, merges, (n - 1) as nat);
    }
}

proof fn lemma_ranks(tokens: Seq<Seq<char>>, merges: Seq<Seq<char>>, n: nat)
    requires
        n <= u32::MAX,
    ensures
        ({
            let table = merge_table(tokens, merges, n);
            &&& forall|l: u32, r: u32| #[trigger]
                table.contains_key((l, r)) ==> {
                    let rank = table[(l, r)].0;
                    &&& rank < n
                    &&& merge_ids(tokens, merges[rank as int])->0 == (l, r, table[(l, r)].1)
                }
            &&& forall|i: int|
                0 <= i < n ==> {
                    let (l, r, m) = merge_ids(tokens, #[trigger] merges[i])->0;
                    table.contains_key((l, r)) && i <= table[(l, r)].0
                }
        }),
    decreases n,
{
    if n > 0 {
        lemma_ranks(tokens, merges, (n - 1) as nat);
        let before = merge_table(tokens, merges, (n - 1) as nat);
        let table = merge_table(tokens, merges, n);
        let (a, b, c) = merge_ids(tokens, merges[n - 1])->0;
        assert(table == before.insert((a, b), ((n - 1) as u32, c)));
        assert forall|l: u32, r: u32| #[trigger] table.contains_key((l, r)) implies ({
            let rank = table[(l, r)].0;
            &&& rank < n
            &&& merge_ids(tokens, merges[rank as int])->0 == (l, r, table[(l, r)].1)
        }) by {
            if (l, r) != (a, b) {
                assert(before.contains_key((l, r)));
            }
        }
        assert forall|i: int| 0 <= i < n implies ({
            let (l, r, m) = merge_ids(tokens, #[trigger] merges[i])->0;
            table.contains_key((l, r)) && i <= table[(l, r)].0
        }) by {
            if i < n - 1 {
                let (l, r, m) = merge_ids(tokens, merges[i])->0;
                assert(before.contains_key((l, r)));
            }
        }
    }
}

/// The numbers that stand for token types.
pub proof fn lemma_type_numbers(raw: i32, ty: TokenType)
    ensures
        token_type_of(raw) is Some <==> 0 <= raw <= 6,
        token_type_of(raw) == Some(ty) <==> raw == (match ty {
            TokenType::Undefined => 0int,
            TokenType::Normal => 1,
            TokenType::Unknown => 2,
            TokenType::Control => 3,
            TokenType::UserDefined => 4,
            TokenType::Unused => 5,
            TokenType::Byte => 6,
        }),
        token_type_of(raw) == Some(ty) ==> (ty.special() <==> raw == 3 || raw == 4),
{
}

/// A piece spells a byte where it is two hexadecimal digits between `<0x` and
/// `>`; the first counts sixteen times.
pub proof fn lemma_byte_piece_form(piece: Seq<char>, b: u8)
    ensures
        byte_piece(piece) == Some(b) <==> exists|h: char, l: char|
            {
                &&& piece == #[trigger] seq!['<', '0', 'x', h, l, '>']
                &&& hex_value(h) is Some && hex_value(l) is Some
                &&& b == 16 * hex_value(h)->0 + hex_value(l)->0
            },
{
    if byte_piece(piece) == Some(b) {
        let (h, l) = (piece[3], piece[4]);
        assert(piece =~= seq!['<', '0', 'x', h, l, '>']);
    }
}

/// A hexadecimal digit has the value of its place among the sixteen, in
/// either case.
pub proof fn lemma_hex_digits(c: char, v: u8)
    ensures
        hex_value(c) == Some(v) <==> v < 16 && (c == "0123456789abcdef"@[v as int] || c
            == "0123456789ABCDEF"@[v as int]),
{
    reveal_strlit("0123456789abcdef");
    reveal_strlit("0123456789ABCDEF");
}

/// The tables are those that the metadata gives: every piece and type at its
/// id; the merge entries by their place in the list, the later of two for one
/// pair, each with the token that spells both halves; and the ids declared.
#[verifier::rlimit(40)]
pub proof fn lemma_vocab_tables(meta: TokenizerMetadata, v: VocabView)
    requires
        ids_fit(meta),
        vocab_of(meta) == Ok::<VocabView, VocabFault>(v),
    ensures
        v.wf(),
        meta.model is Ok && meta.model->Ok_0@ == "gemma4"@,
        meta.add_bos_token matches Ok(flag) && flag != Some(true),
        meta.add_space_prefix matches Ok(flag) && flag != Some(true),
        meta.tokens is Ok && meta.token_type is Ok && meta.merges is Ok,
        meta.scores_len == Ok::<usize, MetaError>(meta.tokens->Ok_0@.len() as usize),
        forall|i: int|
            0 <= i < meta.merges->Ok_0@.len() ==> mergeable(
                v.pieces,
                (#[trigger] meta.merges->Ok_0@[i])@,
            ),
        ({
            let tokens = meta.tokens->Ok_0@;
            let raw_types = meta.token_type->Ok_0@;
            let merges = meta.merges->Ok_0@;
            &&& v.pieces.len() == tokens.len() == raw_types.len() == v.types.len()
            &&& forall|id: int|
                0 <= id < tokens.len() ==> #[trigger] v.pieces[id] == tokens[id]@ && token_type_of(
                    raw_types[id],
                ) == Some(v.types[id])
            &&& forall|l: u32, r: u32| #[trigger]
                v.merges.contains_key((l, r)) ==> {
                    let (rank, m) = v.merges[(l, r)];
                    &&& (rank as int) < merges.len()
                    &&& merges[rank as int]@ == merge_line(v.pieces[l as int], v.pieces[r as int])
                    &&& v.pieces[m as int] == v.pieces[l as int] + v.pieces[r as int]
                }
            &&& forall|i: int, l: u32, r: u32|
                #![trigger merges[i], v.pieces[l as int], v.pieces[r as int]]
                0 <= i < merges.len() && (l as int) < v.pieces.len() && (r as int) < v.pieces.len()
                    && merges[i]@ == merge_line(v.pieces[l as int], v.pieces[r as int])
                    ==> v.merges.contains_key((l, r)) && i <= v.merges[(l, r)].0
        }),
        meta.bos_token_id == Ok::<u64, MetaError>(v.bos as u64),
        meta.eos_token_id == Ok::<u64, MetaError>(v.eos as u64),
        meta.padding_token_id == Ok::<u64, MetaError>(v.pad as u64),
        meta.unknown_token_id == Ok::<u64, MetaError>(v.unk as u64),
{
    lemma_vocab_wf(meta);
    let (tokens, raw_types) = token_arrays(meta)->Ok_0;
    let merges = texts(meta.merges->Ok_0@);
    lemma_first_fault_none(tokens, raw_types, tokens.len());
    assert forall|id: int| 0 <= id < tokens.len() implies #[trigger] v.pieces[id]
        == meta.tokens->Ok_0@[id]@ && token_type_of(raw_types[id]) == Some(v.types[id]) by {
        assert(token_fault(tokens, raw_types, id) is None);
    }
    lemma_merge_faults_none(tokens, merges, merges.len());
    assert forall|i: int| 0 <= i < merges.len() implies mergeable(
        v.pieces,
        (#[trigger] meta.merges->Ok_0@[i])@,
    ) by {
        assert(merge_ids(tokens, merges[i]) is Some);
        lemma_halves_line(merges[i]);
        let (a, b) = merge_halves(merges[i])->0;
        assert(merges[i] == merge_line(a, b));
    }
    lemma_ranks(tokens, merges, merges.len());
    assert forall|l: u32, r: u32| #[trigger] v.merges.contains_key((l, r)) implies ({
        let (rank, m) = v.merges[(l, r)];
        &&& (rank as int) < merges.len()
        &&& merges[rank as int] == merge_line(v.pieces[l as int], v.pieces[r as int])
        &&& v.pieces[m as int] == v.pieces[l as int] + v.pieces[r as int]
    }) by {
        let rank = v.merges[(l, r)].0 as int;
        assert(merge_ids(tokens, merges[rank]) is Some);
        lemma_halves_line(merges[rank]);
        let (a, b) = merge_halves(merges[rank])->0;
        lemma_position(tokens, a);
        lemma_position(tokens, b);
    }
    assert forall|i: int, l: u32, r: u32|
        #![trigger merges[i], v.pieces[l as int], v.pieces[r as int]]
        0 <= i < merges.len() && (l as int) < v.pieces.len() && (r as int) < v.pieces.len()
            && merges[i] == merge_line(
            v.pieces[l as int],
            v.pieces[r as int],
        ) implies v.merges.contains_key((l, r)) && i <= v.merges[(l, r)].0 by {
        assert(merge_ids(tokens, merges[i]) is Some);
        lemma_halves_line(merges[i]);
        let (a, b) = merge_halves(merges[i])->0;
        lemma_one_space(a, b, v.pieces[l as int], v.pieces[r as int]);
        lemma_position(tokens, a);
        lemma_position(tokens, b);
        lemma_id_names_piece(v, a, l);
        lemma_id_names_piece(v, b, r);
    }
    assert forall|i: int, l: u32, r: u32|
        #![trigger meta.merges->Ok_0@[i], v.pieces[l as int], v.pieces[r as int]]
        0 <= i < merges.len() && (l as int) < v.pieces.len() && (r as int) < v.pieces.len()
            && meta.merges->Ok_0@[i]@ == merge_line(
            v.pieces[l as int],
            v.pieces[r as int],
        ) implies v.merges.contains_key((l, r)) && i <= v.merges[(l, r)].0 by {
        assert(merges[i] == meta.merges->Ok_0@[i]@);
    }
}

proof fn lemma_one_space(a: Seq<char>, b: Seq<char>, c: Seq<char>, d: Seq<char>)
    requires
        merge_line(a, b) == merge_line(c, d),
        !a.contains(' '),
        !b.contains(' '),
    ensures
        a == c,
        b == d,
{
    let m = merge_line(a, b);
    let n = c.len() as int;
    assert(m.len() == a.len() + 1 + b.len());
    assert(merge_line(c, d).len() == c.len() + 1 + d.len());
    assert(merge_line(c, d)[n] == ' ');
    if n < a.len() {
        assert(m[n] == a[n]);
        assert(a.contains(a[n]));
    } else if n > a.len() {
        assert(m[n] == b[n - a.len() - 1]);
        assert(b.contains(b[n - a.len() - 1]));
    }
    assert(m.take(n) =~= a && merge_line(c, d).take(n) =~= c);
    assert(m.skip(n + 1) =~= b && merge_line(c, d).skip(n + 1) =~= d);
}

/// The first fault among the tokens is that of some token, and there is none
/// where no token has one.
proof fn lemma_first_fault_is(tokens: Seq<Seq<char>>, raw_types: Seq<i32>, n: nat)
    ensures
        first_token_fault(tokens, raw_types, n) is Some ==> exists|i: int|
            0 <= i < n && #[trigger] token_fault(tokens, raw_types, i) == first_token_fault(
                tokens,
                raw_types,
                n,
            ),
        (forall|i: int| 0 <= i < n ==> #[trigger] token_fault(tokens, raw_types, i) is None)
            ==> first_token_fault(tokens, raw_types, n) is None,
    decreases n,
{
    if n > 0 {
        lemma_first_fault_is(tokens, raw_types, (n - 1) as nat);
        assert(token_fault(tokens, raw_types, n - 1) is None || token_fault(
            tokens,
            raw_types,
            n - 1,
        ) is Some);
    }
}

/// The byte tokens among the first `n`.
pub open spec fn byte_tokens(raw_types: Seq<i32>, n: nat) -> Set<int> {
    Set::new(|id: int| 0 <= id < n && raw_types[id] == 6)
}

proof fn lemma_byte_count(raw_types: Seq<i32>, n: nat)
    ensures
        byte_tokens(raw_types, n).finite(),
        byte_token_count(raw_types, n) == byte_tokens(raw_types, n).len(),
    decreases n,
{
    let all = byte_tokens(raw_types, n);
    if n > 0 {
        lemma_byte_count(raw_types, (n - 1) as nat);
        let before = byte_tokens(raw_types, (n - 1) as nat);
        if raw_types[n - 1] == 6 {
            assert(all =~= before.insert(n - 1));
        } else {
            assert(all =~= before);
        }
    } else {
        assert(all =~= Set::<int>::empty());
    }
}

proof fn lemma_byte_filled(tokens: Seq<Seq<char>>, raw_types: Seq<i32>, n: nat, id: int, b: u8)
    requires
        n <= u32::MAX,
        0 <= id < n,
        raw_types[id] == 6,
        byte_piece(tokens[id]) == Some(b),
    ensures
        byte_table(tokens, raw_types, n).len() == 256,
        byte_table(tokens, raw_types, n)[b as int] != u32::MAX,
    decreases n,
{
    lemma_table_len(tokens, raw_types, n);
    lemma_table_len(tokens, raw_types, (n - 1) as nat);
    if id < n - 1 {
        lemma_byte_filled(tokens, raw_types, (n - 1) as nat, id, b);
    }
}

proof fn lemma_table_len(tokens: Seq<Seq<char>>, raw_types: Seq<i32>, n: nat)
    ensures
        byte_table(tokens, raw_types, n).len() == 256,
    decreases n,
{
    if n > 0 {
        lemma_table_len(tokens, raw_types, (n - 1) as nat);
    }
}

/// A merge entry of two tokens whose pieces together are a token too.
pub open spec fn mergeable(tokens: Seq<Seq<char>>, merge: Seq<char>) -> bool {
    exists|left: Seq<char>, right: Seq<char>|
        {
            &&& merge == #[trigger] merge_line(left, right)
            &&& left.len() > 0 && !left.contains(' ') && tokens.contains(left)
            &&& right.len() > 0 && !right.contains(' ') && tokens.contains(right)
            &&& tokens.contains(left + right)
        }
}

/// A declared id names the token that it should.
pub open spec fn declares(
    declared: Result<u64, MetaError>,
    tokens: Seq<Seq<char>>,
    piece: Seq<char>,
) -> bool {
    declared matches Ok(id) && (id as int) < tokens.len() && tokens[id as int] == piece
}

/// Metadata is accepted where the model is the one this is made for and asks
/// for neither an automatic `<bos>` nor a space in front; the arrays are of one
/// length; the types are known and the pieces distinct; every byte has one
/// token; every merge joins two tokens to a third; and the declared ids name
/// their tokens. `ids` are the tokens of the bytes.
#[verifier::rlimit(40)]
pub proof fn lemma_vocab_accepted(meta: TokenizerMetadata, ids: Seq<int>)
    requires
        ids_fit(meta),
        meta.model matches Ok(m) && m@ == "gemma4"@,
        meta.add_bos_token matches Ok(flag) && flag != Some(true),
        meta.add_space_prefix matches Ok(flag) && flag != Some(true),
        meta.tokens is Ok && meta.token_type is Ok && meta.merges is Ok,
        meta.scores_len == Ok::<usize, MetaError>(meta.tokens->Ok_0@.len() as usize),
        meta.tokens->Ok_0@.len() == meta.token_type->Ok_0@.len(),
        texts(meta.tokens->Ok_0@).no_duplicates(),
        forall|id: int|
            0 <= id < meta.token_type->Ok_0@.len() ==> 0 <= #[trigger] meta.token_type->Ok_0@[id]
                <= 6,
        ids.len() == 256,
        forall|b: int|
            0 <= b < 256 ==> {
                &&& 0 <= #[trigger] ids[b] < meta.tokens->Ok_0@.len()
                &&& meta.token_type->Ok_0@[ids[b]] == 6
                &&& byte_piece(meta.tokens->Ok_0@[ids[b]]@) == Some(b as u8)
            },
        forall|id: int|
            0 <= id < meta.token_type->Ok_0@.len() && #[trigger] meta.token_type->Ok_0@[id] == 6
                ==> ids.contains(id),
        forall|i: int|
            0 <= i < meta.merges->Ok_0@.len() ==> mergeable(
                texts(meta.tokens->Ok_0@),
                (#[trigger] meta.merges->Ok_0@[i])@,
            ),
        declares(meta.bos_token_id, texts(meta.tokens->Ok_0@), "<bos>"@),
        declares(meta.eos_token_id, texts(meta.tokens->Ok_0@), "<eos>"@),
        declares(meta.padding_token_id, texts(meta.tokens->Ok_0@), "<pad>"@),
        declares(meta.unknown_token_id, texts(meta.tokens->Ok_0@), "<unk>"@),
        texts(meta.tokens->Ok_0@).contains("<turn|>"@),
    ensures
        vocab_of(meta) is Ok,
{
    let tokens = texts(meta.tokens->Ok_0@);
    let raw_types = meta.token_type->Ok_0@;
    let merges = texts(meta.merges->Ok_0@);
    let n = tokens.len();
    assert forall|id: int| 0 <= id < n implies #[trigger] token_fault(
        tokens,
        raw_types,
        id,
    ) is None by {
        assert(0 <= raw_types[id] <= 6);
        if tokens.take(id).contains(tokens[id]) {
            let j = choose|j: int| 0 <= j < id && tokens.take(id)[j] == tokens[id];
            assert(tokens[j] == tokens[id]);
        }
        if raw_types[id] == 6 {
            assert(ids.contains(id));
            let b = choose|b: int| 0 <= b < ids.len() && ids[b] == id;
            assert(byte_piece(tokens[ids[b]]) == Some(b as u8));
        }
    }
    lemma_first_fault_is(tokens, raw_types, n);
    lemma_byte_count(raw_types, n);
    assert forall|a: int, b: int| 0 <= a < 256 && 0 <= b < 256 && a != b implies ids[a]
        != ids[b] by {
        assert(byte_piece(tokens[ids[a]]) == Some(a as u8));
        assert(byte_piece(tokens[ids[b]]) == Some(b as u8));
    }
    assert(ids.no_duplicates());
    ids.unique_seq_to_set();
    assert(ids.to_set() =~= byte_tokens(raw_types, n)) by {
        assert forall|id: int| #[trigger]
            ids.to_set().contains(id) <==> byte_tokens(raw_types, n).contains(id) by {
            if ids.contains(id) {
                let b = choose|b: int| 0 <= b < ids.len() && ids[b] == id;
                assert(raw_types[ids[b]] == 6);
            }
        }
    }
    let table = byte_table(tokens, raw_types, n);
    lemma_table_len(tokens, raw_types, n);
    assert forall|b: int| 0 <= b < 256 implies table[b] != u32::MAX by {
        lemma_byte_filled(tokens, raw_types, n, ids[b], b as u8);
    }
    assert(tokens_fault(tokens, raw_types) is None);
    assert forall|i: int| 0 <= i < merges.len() implies merge_ids(
        tokens,
        #[trigger] merges[i],
    ) is Some by {
        assert(mergeable(tokens, meta.merges->Ok_0@[i]@));
        let (left, right) = choose|left: Seq<char>, right: Seq<char>|
            {
                &&& merges[i] == #[trigger] merge_line(left, right)
                &&& left.len() > 0 && !left.contains(' ') && tokens.contains(left)
                &&& right.len() > 0 && !right.contains(' ') && tokens.contains(right)
                &&& tokens.contains(left + right)
            };
        lemma_line_splits(left, right);
    }
    lemma_merge_faults_none(tokens, merges, merges.len());
}

proof fn lemma_merge_fault_is(tokens: Seq<Seq<char>>, merges: Seq<Seq<char>>, n: nat)
    ensures
        match first_merge_fault(tokens, merges, n) {
            None => true,
            Some(VocabFault::BadMergeFormat { index, merge }) => n <= usize::MAX ==> index < n
                && merge == merges[index as int] && merge_halves(merge) is None,
            Some(VocabFault::MergePieceMissing { index, merge }) => n <= usize::MAX ==> index < n
                && merge == merges[index as int] && (merge_halves(merge) matches Some((l, r))
                && !(tokens.contains(l) && tokens.contains(r) && tokens.contains(l + r))),
            _ => false,
        },
    decreases n,
{
    if n > 0 {
        lemma_merge_fault_is(tokens, merges, (n - 1) as nat);
    }
}

/// What a refusal says is so: the fault it names is there.
#[verifier::rlimit(40)]
pub proof fn lemma_vocab_refused(meta: TokenizerMetadata, fault: VocabFault)
    requires
        ids_fit(meta),
        vocab_of(meta) == Err::<VocabView, VocabFault>(fault),
    ensures
        ({
            let tokens = texts(meta.tokens->Ok_0@);
            let raw_types = meta.token_type->Ok_0@;
            let merges = texts(meta.merges->Ok_0@);
            match fault {
                VocabFault::Meta(d) => {
                    ||| meta.model matches Err(e) && e.detail@ == d
                    ||| meta.add_bos_token matches Err(e) && e.detail@ == d
                    ||| meta.add_space_prefix matches Err(e) && e.detail@ == d
                    ||| meta.tokens matches Err(e) && e.detail@ == d
                    ||| meta.scores_len matches Err(e) && e.detail@ == d
                    ||| meta.token_type matches Err(e) && e.detail@ == d
                    ||| meta.merges matches Err(e) && e.detail@ == d
                    ||| meta.bos_token_id matches Err(e) && e.detail@ == d
                    ||| meta.eos_token_id matches Err(e) && e.detail@ == d
                    ||| meta.padding_token_id matches Err(e) && e.detail@ == d
                    ||| meta.unknown_token_id matches Err(e) && e.detail@ == d
                },
                VocabFault::WrongModel(m) => meta.model is Ok && meta.model->Ok_0@ == m && m
                    != "gemma4"@,
                VocabFault::ArrayLengths { tokens: t, scores, types } => {
                    &&& t == tokens.len() && types == raw_types.len()
                    &&& meta.scores_len == Ok::<usize, MetaError>(scores)
                    &&& !(t == scores && t == types)
                },
                VocabFault::DuplicatePiece(p) => exists|i: int, j: int|
                    0 <= i < j < tokens.len() && #[trigger] tokens[i] == p && #[trigger] tokens[j]
                        == p,
                VocabFault::BadTokenType { id, raw } => (id as int) < raw_types.len()
                    && raw_types[id as int] == raw && !(0 <= raw <= 6),
                VocabFault::BadByteToken(p) => byte_piece(p) is None && exists|id: int|
                    0 <= id < tokens.len() && #[trigger] tokens[id] == p && raw_types[id] == 6,
                VocabFault::IncompleteByteTable(count) => count == byte_tokens(
                    raw_types,
                    tokens.len(),
                ).len(),
                VocabFault::BadMergeFormat { index, merge } => (index as int) < merges.len()
                    && merges[index as int] == merge && !mergeable(tokens, merge),
                VocabFault::MergePieceMissing { index, merge } => (index as int) < merges.len()
                    && merges[index as int] == merge && !mergeable(tokens, merge),
                VocabFault::SpecialIdMismatch { key, id, piece, expected } => piece != expected && {
                    ||| key == "<turn|> lookup"@ && expected == "<turn|>"@ && !tokens.contains(
                        expected,
                    )
                    ||| (id as int) < tokens.len() && tokens[id as int] == piece && {
                        let declared = Ok::<u64, MetaError>(id as u64);
                        ||| expected == "<bos>"@ && meta.bos_token_id == declared
                        ||| expected == "<eos>"@ && meta.eos_token_id == declared
                        ||| expected == "<pad>"@ && meta.padding_token_id == declared
                        ||| expected == "<unk>"@ && meta.unknown_token_id == declared
                    }
                },
                VocabFault::UnsupportedFlag { key } => {
                    ||| key == "tokenizer.ggml.add_bos_token"@ && meta.add_bos_token == Ok::<
                        Option<bool>,
                        MetaError,
                    >(Some(true))
                    ||| key == "tokenizer.ggml.add_space_prefix"@ && meta.add_space_prefix == Ok::<
                        Option<bool>,
                        MetaError,
                    >(Some(true))
                },
                VocabFault::IdOutOfRange(id) => tokens.len() <= id,
            }
        }),
{
    reveal_strlit("<turn|>");
    assert("<turn|>"@.len() == 7);
    let tokens = texts(meta.tokens->Ok_0@);
    let raw_types = meta.token_type->Ok_0@;
    let merges = texts(meta.merges->Ok_0@);
    lemma_first_fault_is(tokens, raw_types, tokens.len());
    lemma_merge_fault_is(tokens, merges, merges.len());
    lemma_byte_count(raw_types, tokens.len());
    lemma_byte_count_bound(raw_types, tokens.len());
    if meta.token_type is Ok {
        assert(meta.token_type->Ok_0.len() == raw_types.len());
    }
    if header_fault(meta) is None && token_arrays(meta) is Ok {
        if first_token_fault(tokens, raw_types, tokens.len()) is Some {
            let i = choose|i: int|
                0 <= i < tokens.len() && #[trigger] token_fault(tokens, raw_types, i)
                    == first_token_fault(tokens, raw_types, tokens.len());
            if fault is DuplicatePiece {
                let j = choose|j: int| 0 <= j < i && tokens.take(i)[j] == tokens[i];
                assert(tokens[j] == tokens[i]);
            }
        }
        match fault {
            VocabFault::BadMergeFormat { index, merge } => {
                if mergeable(tokens, merge) {
                    lemma_mergeable(tokens, merge);
                }
            },
            VocabFault::MergePieceMissing { index, merge } => {
                if mergeable(tokens, merge) {
                    lemma_mergeable(tokens, merge);
                }
            },
            _ => {},
        }
    }
}

proof fn lemma_mergeable(tokens: Seq<Seq<char>>, merge: Seq<char>)
    requires
        mergeable(tokens, merge),
    ensures
        merge_halves(merge) matches Some((l, r)) && tokens.contains(l) && tokens.contains(r)
            && tokens.contains(l + r),
{
    let (left, right) = choose|left: Seq<char>, right: Seq<char>|
        {
            &&& merge == #[trigger] merge_line(left, right)
            &&& left.len() > 0 && !left.contains(' ') && tokens.contains(left)
            &&& right.len() > 0 && !right.contains(' ') && tokens.contains(right)
            &&& tokens.contains(left + right)
        };
    lemma_line_splits(left, right);
}

} // verus!
