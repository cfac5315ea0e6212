//! Recursive-descent parser for Gemma's argument syntax: unquoted keys,
//! `<|"|>`-quoted strings, `true`/`false`/`None`, numbers, nested `{}`/`[]`.

use vstd::prelude::*;
use vstd::string::*;

use crate::argument::QUOTE;
use crate::json::{
    entry_set, entry_views, float_text, floats_print, json_views, lemma_set_floats, set_entry,
    Json, JsonView, Number, NumberView,
};
use crate::text::{
    byte_len, chars_of, debug_quoted, debug_text, decimal, find_from, first_at, has_at, is_white,
    leading_white, lemma_leading_white_is, parse_i64, parsed_i64, push_decimal, push_range, same_text, skip_white,
    stands_at, trim_range, trimmed, utf8_len,
};

verus! {

/// What a parse step gives: a value and the position behind it, or what is
/// wrong.
pub type Parsed<T> = Result<(T, int), Seq<char>>;

/// The character `c` stands at `pos`.
pub open spec fn char_at(input: Seq<char>, pos: int, c: char) -> bool {
    0 <= pos < input.len() && input[pos] == c
}

/// The position behind the white space at `pos`.
pub open spec fn past_white(input: Seq<char>, pos: int) -> int {
    pos + leading_white(input.skip(pos))
}

/// `message` with the position `pos` in bytes behind it.
pub open spec fn at_byte(message: Seq<char>, input: Seq<char>, pos: int) -> Seq<char> {
    message + decimal(byte_len(input.take(pos)))
}

/// The characters that end a bare key.
pub open spec fn ends_key(c: char) -> bool {
    c == ':' || c == ',' || c == '{' || c == '}'
}

/// The characters that end a bare value.
pub open spec fn ends_value(c: char) -> bool {
    c == ',' || c == '}' || c == ']'
}

/// How many characters at the start of `s` end neither.
pub open spec fn run_len(s: Seq<char>, stops: spec_fn(char) -> bool) -> nat
    decreases s.len(),
{
    if s.len() > 0 && !stops(s[0]) {
        1 + run_len(s.drop_first(), stops)
    } else {
        0
    }
}

/// A string between quotes; the closing quote is the next one (the format
/// has no escaping inside strings).
pub open spec fn parsed_quoted(input: Seq<char>, pos: int) -> Parsed<Seq<char>> {
    let from = pos + QUOTE@.len();
    if exists|i: int| first_at(input, from, QUOTE@, i) {
        let i = choose|i: int| first_at(input, from, QUOTE@, i);
        Ok((input.subrange(from, i), i + QUOTE@.len()))
    } else {
        Err(at_byte("unterminated string at byte "@, input, from))
    }
}

/// A bare key, or a quoted one.
pub open spec fn parsed_key(input: Seq<char>, pos: int) -> Parsed<Seq<char>> {
    if stands_at(input, pos, QUOTE@) {
        parsed_quoted(input, pos)
    } else {
        let rest = input.skip(pos);
        let end = run_len(rest, |c: char| ends_key(c)) as int;
        let key = trimmed(rest.take(end));
        if end == rest.len() {
            Err(at_byte("unterminated key at byte "@, input, pos))
        } else if key.len() == 0 {
            Err(at_byte("empty key at byte "@, input, pos))
        } else {
            Ok((key, pos + end))
        }
    }
}

/// The number of an integer.
pub open spec fn integer(i: i64) -> NumberView {
    if i >= 0 {
        NumberView::PosInt(i as u64)
    } else {
        NumberView::NegInt(i)
    }
}

/// The value a bare word stands for: a boolean, nothing, a number, or else
/// the word itself.
pub open spec fn word_json(word: Seq<char>) -> JsonView {
    if word == "true"@ {
        JsonView::Bool(true)
    } else if word == "false"@ {
        JsonView::Bool(false)
    } else if word == "None"@ || word == "null"@ {
        JsonView::Null
    } else {
        match parsed_i64(word) {
            Some(i) => JsonView::Number(integer(i)),
            None => match float_text(word) {
                Some(t) => JsonView::Number(NumberView::Float(t)),
                None => JsonView::Text(word),
            },
        }
    }
}

/// A bare scalar, up to the next structural character.
pub open spec fn parsed_word(input: Seq<char>, pos: int) -> Parsed<JsonView> {
    let rest = input.skip(pos);
    let end = run_len(rest, |c: char| ends_value(c)) as int;
    let word = trimmed(rest.take(end));
    if word.len() == 0 {
        Err(at_byte("empty value at byte "@, input, pos + end))
    } else {
        Ok((word_json(word), pos + end))
    }
}

/// The position moved on, inside the input.
pub open spec fn moved_on(input: Seq<char>, from: int, to: int) -> bool {
    from < to <= input.len()
}

/// A value at `pos`.
pub open spec fn parsed_value(input: Seq<char>, pos: int) -> Parsed<JsonView>
    decreases input.len() - pos, 1nat,
    when 0 <= pos <= input.len()
{
    let p = past_white(input, pos);
    if stands_at(input, p, QUOTE@) {
        match parsed_quoted(input, p) {
            Ok((s, end)) => Ok((JsonView::Text(s), end)),
            Err(e) => Err(e),
        }
    } else if char_at(input, p, '{') {
        parsed_object(input, p)
    } else if char_at(input, p, '[') {
        let q = past_white(input, p + 1);
        proof {
            lemma_leading_white_is(input.skip(p + 1));
        }
        if char_at(input, q, ']') {
            Ok((JsonView::Array(Seq::empty()), q + 1))
        } else {
            parsed_items(input, q, Seq::empty())
        }
    } else {
        parsed_word(input, p)
    }
}

/// The rest of an array behind `items`, the next item at `pos`.
pub open spec fn parsed_items(input: Seq<char>, pos: int, items: Seq<JsonView>) -> Parsed<JsonView>
    decreases input.len() - pos, 2nat,
    when 0 <= pos <= input.len()
{
    match parsed_value(input, pos) {
        Err(e) => Err(e),
        Ok((v, end)) => {
            let p = past_white(input, end);
            let more = items.push(v);
            if !moved_on(input, pos, end) {
                Err(Seq::empty())
            } else if char_at(input, p, ',') {
                parsed_items(input, p + 1, more)
            } else if char_at(input, p, ']') {
                Ok((JsonView::Array(more), p + 1))
            } else {
                Err(at_byte("expected `,` or `]` at byte "@, input, p))
            }
        },
    }
}

/// An object at `pos`.
pub open spec fn parsed_object(input: Seq<char>, pos: int) -> Parsed<JsonView>
    decreases input.len() - pos, 0nat,
    when 0 <= pos <= input.len()
{
    if !char_at(input, pos, '{') {
        Err(at_byte("expected `{` at byte "@, input, pos))
    } else {
        let p = past_white(input, pos + 1);
        proof {
            lemma_leading_white_is(input.skip(pos + 1));
        }
        if char_at(input, p, '}') {
            Ok((JsonView::Object(Seq::empty()), p + 1))
        } else {
            parsed_fields(input, p, Seq::empty())
        }
    }
}

/// The rest of an object behind `entries`, the next key at `pos`.
pub open spec fn parsed_fields(
    input: Seq<char>,
    pos: int,
    entries: Seq<(Seq<char>, JsonView)>,
) -> Parsed<JsonView>
    decreases input.len() - pos, 1nat,
    when 0 <= pos <= input.len()
{
    match parsed_key(input, past_white(input, pos)) {
        Err(e) => Err(e),
        Ok((key, end)) => {
            let colon = past_white(input, end);
            if !char_at(input, colon, ':') {
                Err(
                    at_byte(
                        "expected `:` after key "@ + debug_text(key) + " at byte "@,
                        input,
                        colon,
                    ),
                )
            } else if !moved_on(input, pos, colon + 1) {
                Err(Seq::empty())
            } else {
                match parsed_value(input, colon + 1) {
                    Err(e) => Err(e),
                    Ok((v, end)) => {
                        let p = past_white(input, end);
                        let more = entry_set(entries, key, v);
                        if !moved_on(input, colon + 1, end) {
                            Err(Seq::empty())
                        } else if char_at(input, p, ',') {
                            parsed_fields(input, p + 1, more)
                        } else if char_at(input, p, '}') {
                            Ok((JsonView::Object(more), p + 1))
                        } else {
                            Err(at_byte("expected `,` or `}` at byte "@, input, p))
                        }
                    },
                }
            }
        },
    }
}

pub proof fn lemma_run_len(s: Seq<char>, stops: spec_fn(char) -> bool, n: nat)
    requires
        n <= s.len(),
        forall|i: int| 0 <= i < n ==> !stops(#[trigger] s[i]),
        n < s.len() ==> stops(s[n as int]),
    ensures
        run_len(s, stops) == n,
    decreases n,
{
    if n > 0 {
        let rest = s.drop_first();
        assert forall|i: int| 0 <= i < n - 1 implies !stops(#[trigger] rest[i]) by {
            assert(rest[i] == s[i + 1]);
        }
        lemma_run_len(rest, stops, (n - 1) as nat);
    }
}

proof fn lemma_run_bound(s: Seq<char>, stops: spec_fn(char) -> bool)
    ensures
        run_len(s, stops) <= s.len(),
    decreases s.len(),
{
    if s.len() > 0 {
        lemma_run_bound(s.drop_first(), stops);
    }
}

proof fn lemma_past_white(input: Seq<char>, pos: int)
    requires
        0 <= pos <= input.len(),
    ensures
        pos <= past_white(input, pos) <= input.len(),
{
    lemma_leading_white_is(input.skip(pos));
}

proof fn lemma_quoted_moves(input: Seq<char>, pos: int)
    requires
        0 <= pos <= input.len(),
    ensures
        parsed_quoted(input, pos) matches Ok((s, end)) ==> moved_on(input, pos, end),
{
    reveal_strlit("<|\"|>");
}

proof fn lemma_key_moves(input: Seq<char>, pos: int)
    requires
        0 <= pos <= input.len(),
    ensures
        parsed_key(input, pos) matches Ok((s, end)) ==> moved_on(input, pos, end),
{
    lemma_quoted_moves(input, pos);
    let rest = input.skip(pos);
    lemma_run_bound(rest, |c: char| ends_key(c));
    assert(trimmed(rest.take(0)).len() == 0);
}

/// Parsing a value moves on inside the input.
pub proof fn lemma_value_moves(input: Seq<char>, pos: int)
    requires
        0 <= pos <= input.len(),
    ensures
        parsed_value(input, pos) matches Ok((v, end)) ==> moved_on(input, pos, end),
    decreases input.len() - pos, 1nat,
{
    let p = past_white(input, pos);
    lemma_past_white(input, pos);
    lemma_quoted_moves(input, p);
    if stands_at(input, p, QUOTE@) {
    } else if char_at(input, p, '{') {
        lemma_object_moves(input, p);
    } else if char_at(input, p, '[') {
        lemma_past_white(input, p + 1);
        let q = past_white(input, p + 1);
        if !char_at(input, q, ']') {
            lemma_items_move(input, q, Seq::empty());
        }
    } else {
        let rest = input.skip(p);
        lemma_run_bound(rest, |c: char| ends_value(c));
        assert(trimmed(rest.take(0)).len() == 0);
    }
}

proof fn lemma_items_move(input: Seq<char>, pos: int, items: Seq<JsonView>)
    requires
        0 <= pos <= input.len(),
    ensures
        parsed_items(input, pos, items) matches Ok((v, end)) ==> moved_on(input, pos, end),
    decreases input.len() - pos, 2nat,
{
    lemma_value_moves(input, pos);
    if let Ok((v, end)) = parsed_value(input, pos) {
        lemma_past_white(input, end);
        let p = past_white(input, end);
        if char_at(input, p, ',') {
            lemma_items_move(input, p + 1, items.push(v));
        }
    }
}

proof fn lemma_object_moves(input: Seq<char>, pos: int)
    requires
        0 <= pos <= input.len(),
    ensures
        parsed_object(input, pos) matches Ok((v, end)) ==> moved_on(input, pos, end),
    decreases input.len() - pos, 0nat,
{
    if char_at(input, pos, '{') {
        lemma_past_white(input, pos + 1);
        let p = past_white(input, pos + 1);
        if !char_at(input, p, '}') {
            lemma_fields_move(input, p, Seq::empty());
        }
    }
}

proof fn lemma_fields_move(input: Seq<char>, pos: int, entries: Seq<(Seq<char>, JsonView)>)
    requires
        0 <= pos <= input.len(),
    ensures
        parsed_fields(input, pos, entries) matches Ok((v, end)) ==> moved_on(input, pos, end),
    decreases input.len() - pos, 1nat,
{
    lemma_past_white(input, pos);
    let start = past_white(input, pos);
    lemma_key_moves(input, start);
    if let Ok((key, end)) = parsed_key(input, start) {
        lemma_past_white(input, end);
        let colon = past_white(input, end);
        if char_at(input, colon, ':') {
            lemma_value_moves(input, colon + 1);
            if let Ok((v, end)) = parsed_value(input, colon + 1) {
                lemma_past_white(input, end);
                let p = past_white(input, end);
                if char_at(input, p, ',') {
                    lemma_fields_move(input, p + 1, entry_set(entries, key, v));
                }
            }
        }
    }
}

/// The parser: the characters of the input, and the position of the next one.
pub struct ArgParser {
    input: Vec<char>,
    pos: usize,
}

impl ArgParser {
    /// The input.
    pub closed spec fn text(self) -> Seq<char> {
        self.input@
    }

    /// The position, in characters.
    pub closed spec fn at(self) -> int {
        self.pos as int
    }

    pub open spec fn wf(self) -> bool {
        0 <= self.at() <= self.text().len()
    }

    pub fn new(input: &str) -> (p: Self)
        ensures
            p.text() == input@,
            p.at() == 0,
            p.wf(),
    {
        ArgParser { input: chars_of(input), pos: 0 }
    }

    /// The input that is left.
    pub fn rest(&self) -> (r: String)
        requires
            self.wf(),
        ensures
            r@ == self.text().skip(self.at()),
    {
        let mut out = String::new();
        push_range(&mut out, &self.input, self.pos, self.input.len());
        assert(out@ =~= self.text().skip(self.at()));
        out
    }

    /// Whether all input has been read.
    pub fn at_end(&self) -> (r: bool)
        ensures
            r == (self.at() == self.text().len()),
    {
        self.pos == self.input.len()
    }

    /// `message` with the position in bytes behind it.
    pub fn error(&self, message: &str) -> (r: String)
        requires
            self.wf(),
        ensures
            r@ == at_byte(message@, self.text(), self.at()),
    {
        let mut head = String::new();
        push_range(&mut head, &self.input, 0, self.pos);
        assert(head@ =~= self.input@.take(self.pos as int));
        let mut out = message.to_owned();
        push_decimal(&mut out, utf8_len(head.as_str()) as u64);
        out
    }

    pub fn skip_ws(&mut self)
        requires
            old(self).wf(),
        ensures
            final(self).text() == old(self).text(),
            final(self).at() == past_white(old(self).text(), old(self).at()),
            final(self).wf(),
    {
        self.pos = skip_white(&self.input, self.pos);
    }

    /// Reads `c`, where it stands next.
    pub fn eat(&mut self, c: char) -> (r: bool)
        requires
            old(self).wf(),
        ensures
            r == char_at(old(self).text(), old(self).at(), c),
            final(self).text() == old(self).text(),
            final(self).at() == old(self).at() + (if r {
                1int
            } else {
                0
            }),
            final(self).wf(),
    {
        if self.pos < self.input.len() && self.input[self.pos] == c {
            self.pos = self.pos + 1;
            true
        } else {
            false
        }
    }

    /// Whether a quote stands next.
    fn at_quote(&self) -> (r: bool)
        requires
            self.wf(),
        ensures
            r == stands_at(self.text(), self.at(), QUOTE@),
    {
        has_at(&self.input, self.pos, &chars_of(QUOTE))
    }

    /// Reads an object.
    pub fn object(&mut self) -> (r: Result<Json, String>)
        requires
            old(self).wf(),
        ensures
            final(self).text() == old(self).text(),
            final(self).wf(),
            match r {
                Ok(v) => {
                    &&& parsed_object(old(self).text(), old(self).at()) == Ok::<
                        (JsonView, int),
                        Seq<char>,
                    >((v@, final(self).at()))
                    &&& floats_print(v@)
                },
                Err(e) => parsed_object(old(self).text(), old(self).at()) == Err::<
                    (JsonView, int),
                    Seq<char>,
                >(e@),
            },
        decreases old(self).text().len() - old(self).at(), 0nat,
    {
        let ghost input = self.text();
        let ghost start = self.at();
        proof {
            lemma_object_moves(input, start);
        }
        if !self.eat('{') {
            return Err(self.error("expected `{` at byte "));
        }
        let mut entries: Vec<(String, Json)> = Vec::new();
        self.skip_ws();
        if self.eat('}') {
            return Ok(Json::Object(entries));
        }
        let ghost first = self.at();
        loop
            invariant
                self.wf(),
                self.text() == input,
                input == old(self).text(),
                start == old(self).at(),
                start < first <= self.at(),
                parsed_object(input, start) == parsed_fields(
                    input,
                    self.at(),
                    entry_views(entries@),
                ),
                floats_print(JsonView::Object(entry_views(entries@))),
            decreases input.len() - self.at(),
        {
            let ghost from = self.at();
            let ghost had = entry_views(entries@);
            self.skip_ws();
            proof {
                lemma_key_moves(input, self.at());
            }
            let key = match self.key() {
                Ok(key) => key,
                Err(e) => {
                    return Err(e);
                },
            };
            self.skip_ws();
            if !self.eat(':') {
                let mut message = "expected `:` after key ".to_owned();
                message.append(debug_quoted(key.as_str()).as_str());
                message.append(" at byte ");
                return Err(self.error(message.as_str()));
            }
            proof {
                lemma_value_moves(input, self.at());
            }
            let value = match self.value() {
                Ok(value) => value,
                Err(e) => {
                    return Err(e);
                },
            };
            proof {
                lemma_set_floats(had, key@, value@);
            }
            set_entry(&mut entries, key, value);
            self.skip_ws();
            if self.eat(',') {
                continue;
            }
            if self.eat('}') {
                return Ok(Json::Object(entries));
            }
            return Err(self.error("expected `,` or `}` at byte "));
        }
    }

    /// Reads a bare key (model-emitted keys are unquoted), or a
    /// `<|"|>`-quoted one.
    pub fn key(&mut self) -> (r: Result<String, String>)
        requires
            old(self).wf(),
        ensures
            final(self).text() == old(self).text(),
            final(self).wf(),
            match r {
                Ok(key) => {
                    &&& parsed_key(old(self).text(), old(self).at()) == Ok::<
                        (Seq<char>, int),
                        Seq<char>,
                    >((key@, final(self).at()))
                },
                Err(e) => parsed_key(old(self).text(), old(self).at()) == Err::<
                    (Seq<char>, int),
                    Seq<char>,
                >(e@),
            },
    {
        if self.at_quote() {
            return self.quoted();
        }
        let n: usize = self.input.len();
        let from: usize = self.pos;
        let mut end: usize = from;
        while end < n && !(self.input[end] == ':' || self.input[end] == ',' || self.input[end]
            == '{' || self.input[end] == '}')
            invariant
                from <= end <= n,
                n == self.input@.len(),
                forall|i: int| from <= i < end ==> !ends_key(#[trigger] self.input@[i]),
            decreases n - end,
        {
            end = end + 1;
        }
        proof {
            let rest = self.input@.skip(from as int);
            let stops = |c: char| ends_key(c);
            assert forall|i: int| 0 <= i < end - from implies !stops(#[trigger] rest[i]) by {
                assert(rest[i] == self.input@[from + i]);
            }
            lemma_run_len(rest, stops, (end - from) as nat);
            assert(rest.take(end - from) =~= self.input@.subrange(from as int, end as int));
        }
        if end == n {
            return Err(self.error("unterminated key at byte "));
        }
        let (a, b) = trim_range(&self.input, from, end);
        if a == b {
            return Err(self.error("empty key at byte "));
        }
        let mut key = String::new();
        push_range(&mut key, &self.input, a, b);
        assert(key@ =~= self.input@.subrange(a as int, b as int));
        self.pos = end;
        Ok(key)
    }

    /// Reads a value.
    pub fn value(&mut self) -> (r: Result<Json, String>)
        requires
            old(self).wf(),
        ensures
            final(self).text() == old(self).text(),
            final(self).wf(),
            match r {
                Ok(v) => {
                    &&& parsed_value(old(self).text(), old(self).at()) == Ok::<
                        (JsonView, int),
                        Seq<char>,
                    >((v@, final(self).at()))
                    &&& floats_print(v@)
                },
                Err(e) => parsed_value(old(self).text(), old(self).at()) == Err::<
                    (JsonView, int),
                    Seq<char>,
                >(e@),
            },
        decreases old(self).text().len() - old(self).at(), 1nat,
    {
        let ghost input = self.text();
        let ghost start = self.at();
        self.skip_ws();
        if self.at_quote() {
            return match self.quoted() {
                Ok(s) => Ok(Json::Text(s)),
                Err(e) => Err(e),
            };
        }
        if self.pos < self.input.len() && self.input[self.pos] == '{' {
            return self.object();
        }
        if self.eat('[') {
            let mut items: Vec<Json> = Vec::new();
            self.skip_ws();
            if self.eat(']') {
                return Ok(Json::Array(items));
            }
            loop
                invariant
                    self.wf(),
                    self.text() == input,
                    input == old(self).text(),
                    start == old(self).at(),
                    start < self.at(),
                    parsed_value(input, start) == parsed_items(
                        input,
                        self.at(),
                        json_views(items@),
                    ),
                    floats_print(JsonView::Array(json_views(items@))),
                decreases input.len() - self.at(),
            {
                let ghost had = items@;
                proof {
                    lemma_value_moves(input, self.at());
                }
                let item = match self.value() {
                    Ok(item) => item,
                    Err(e) => {
                        return Err(e);
                    },
                };
                items.push(item);
                assert(items@.subrange(0, items@.len() - 1) =~= had);
                proof {
                    let all = json_views(items@);
                    assert(all.subrange(0, all.len() - 1) =~= json_views(had));
                }
                self.skip_ws();
                if self.eat(',') {
                    continue;
                }
                if self.eat(']') {
                    return Ok(Json::Array(items));
                }
                return Err(self.error("expected `,` or `]` at byte "));
            }
        }
        self.word()
    }

    /// Reads a bare scalar, up to the next structural character.
    fn word(&mut self) -> (r: Result<Json, String>)
        requires
            old(self).wf(),
        ensures
            final(self).text() == old(self).text(),
            final(self).wf(),
            match r {
                Ok(v) => {
                    &&& parsed_word(old(self).text(), old(self).at()) == Ok::<
                        (JsonView, int),
                        Seq<char>,
                    >((v@, final(self).at()))
                    &&& floats_print(v@)
                },
                Err(e) => parsed_word(old(self).text(), old(self).at()) == Err::<
                    (JsonView, int),
                    Seq<char>,
                >(e@),
            },
    {
        let n: usize = self.input.len();
        let from: usize = self.pos;
        let mut end: usize = from;
        while end < n && !(self.input[end] == ',' || self.input[end] == '}' || self.input[end]
            == ']')
            invariant
                from <= end <= n,
                n == self.input@.len(),
                forall|i: int| from <= i < end ==> !ends_value(#[trigger] self.input@[i]),
            decreases n - end,
        {
            end = end + 1;
        }
        proof {
            let rest = self.input@.skip(from as int);
            let stops = |c: char| ends_value(c);
            assert forall|i: int| 0 <= i < end - from implies !stops(#[trigger] rest[i]) by {
                assert(rest[i] == self.input@[from + i]);
            }
            lemma_run_len(rest, stops, (end - from) as nat);
            assert(rest.take(end - from) =~= self.input@.subrange(from as int, end as int));
        }
        let (a, b) = trim_range(&self.input, from, end);
        self.pos = end;
        if a == b {
            return Err(self.error("empty value at byte "));
        }
        let mut word = String::new();
        push_range(&mut word, &self.input, a, b);
        assert(word@ =~= self.input@.subrange(a as int, b as int));
        Ok(json_of_word(word))
    }

    /// Reads `<|"|>…<|"|>`.
    pub fn quoted(&mut self) -> (r: Result<String, String>)
        requires
            old(self).wf(),
            stands_at(old(self).text(), old(self).at(), QUOTE@),
        ensures
            final(self).text() == old(self).text(),
            final(self).wf(),
            match r {
                Ok(s) => {
                    &&& parsed_quoted(old(self).text(), old(self).at()) == Ok::<
                        (Seq<char>, int),
                        Seq<char>,
                    >((s@, final(self).at()))
                },
                Err(e) => parsed_quoted(old(self).text(), old(self).at()) == Err::<
                    (Seq<char>, int),
                    Seq<char>,
                >(e@),
            },
    {
        let quote = chars_of(QUOTE);
        let n: usize = self.input.len();
        assert(self.pos + quote@.len() <= n);
        self.pos = self.pos + quote.len();
        let from: usize = self.pos;
        match find_from(&self.input, from, &quote) {
            None => {
                proof {
                    assert forall|i: int| !first_at(self.input@, from as int, QUOTE@, i) by {
                        if from <= i {
                            assert(!stands_at(self.input@, i, QUOTE@));
                        }
                    }
                }
                Err(self.error("unterminated string at byte "))
            },
            Some(end) => {
                proof {
                    let i = choose|i: int| first_at(self.input@, from as int, QUOTE@, i);
                    assert(i == end) by {
                        if i < end {
                            assert(!stands_at(self.input@, i, QUOTE@));
                        } else if end < i {
                            assert(!stands_at(self.input@, end as int, QUOTE@));
                        }
                    }
                }
                let mut s = String::new();
                push_range(&mut s, &self.input, from, end);
                assert(s@ =~= self.input@.subrange(from as int, end as int));
                self.pos = end + quote.len();
                Ok(s)
            },
        }
    }
}

/// The value a bare word stands for. An unquoted enum-ish word is accepted as
/// a string rather than failing the whole call.
fn json_of_word(word: String) -> (v: Json)
    ensures
        v@ == word_json(word@),
        floats_print(v@),
{
    if same_text(word.as_str(), "true") {
        return Json::Bool(true);
    }
    if same_text(word.as_str(), "false") {
        return Json::Bool(false);
    }
    if same_text(word.as_str(), "None") || same_text(word.as_str(), "null") {
        return Json::Null;
    }
    if let Some(i) = parse_i64(&chars_of(word.as_str())) {
        if i >= 0 {
            return Json::Number(Number::PosInt(i as u64));
        } else {
            return Json::Number(Number::NegInt(i));
        }
    }
    match Number::float(word.as_str()) {
        Some(n) => Json::Number(n),
        None => Json::Text(word),
    }
}

/// White space from `a` on up to `b`, and no further.
pub open spec fn gap(input: Seq<char>, a: int, b: int) -> bool {
    &&& 0 <= a <= b <= input.len()
    &&& forall|j: int| a <= j < b ==> is_white(#[trigger] input[j])
    &&& b < input.len() ==> !is_white(input[b])
}

/// White space is passed over as a whole.
pub proof fn lemma_past_gap(input: Seq<char>, a: int, b: int)
    requires
        gap(input, a, b),
    ensures
        past_white(input, a) == b,
{
    let s = input.skip(a);
    lemma_leading_white_is(s);
    let n = leading_white(s) as int;
    if n < b - a {
        assert(s[n] == input[a + n]);
    } else if n > b - a {
        assert(s[b - a] == input[b]);
    }
}

/// A string ends at the next quote behind the one that opens it, and holds
/// everything between them.
pub proof fn lemma_quoted_parse(input: Seq<char>, pos: int, i: int)
    requires
        0 <= pos,
        stands_at(input, pos, "<|\"|>"@),
        pos + 5 <= i,
        stands_at(input, i, "<|\"|>"@),
        forall|j: int| pos + 5 <= j < i ==> !#[trigger] stands_at(input, j, "<|\"|>"@),
    ensures
        parsed_quoted(input, pos) == Ok::<(Seq<char>, int), Seq<char>>(
            (input.subrange(pos + 5, i), i + 5),
        ),
{
    reveal_strlit("<|\"|>");
    assert(QUOTE@.len() == 5);
    let from = pos + QUOTE@.len();
    assert(first_at(input, from, QUOTE@, i));
    let k = choose|k: int| first_at(input, from, QUOTE@, k);
    assert(first_at(input, from, QUOTE@, k));
    assert(k == i);
}

/// What a value is goes by its first character behind any white space: a quote
/// opens a string, a brace an object, a bracket a list, and anything else is a
/// bare word.
#[verifier::rlimit(40)]
pub proof fn lemma_value_parse(input: Seq<char>, pos: int, p: int)
    requires
        gap(input, pos, p),
    ensures
        stands_at(input, p, "<|\"|>"@) ==> parsed_value(input, pos) == (match parsed_quoted(
            input,
            p,
        ) {
            Ok((s, end)) => Ok::<(JsonView, int), Seq<char>>((JsonView::Text(s), end)),
            Err(e) => Err(e),
        }),
        p < input.len() && input[p] == '{' ==> parsed_value(input, pos) == parsed_object(input, p),
        p < input.len() && input[p] == '[' ==> forall|q: int| #[trigger]
            gap(input, p + 1, q) ==> parsed_value(input, pos) == (if q < input.len() && input[q]
                == ']' {
                Ok::<(JsonView, int), Seq<char>>((JsonView::Array(Seq::empty()), q + 1))
            } else {
                parsed_items(input, q, Seq::empty())
            }),
        !stands_at(input, p, "<|\"|>"@) && !(p < input.len() && (input[p] == '{' || input[p] == '['))
            ==> parsed_value(input, pos) == parsed_word(input, p),
{
    lemma_past_gap(input, pos, p);
    reveal_strlit("<|\"|>");
    assert(QUOTE@[0] == '<');
    if stands_at(input, p, QUOTE@) {
        assert(input.subrange(p, p + QUOTE@.len())[0] == input[p]);
    }
    assert forall|q: int| #[trigger] gap(input, p + 1, q) implies past_white(input, p + 1)
        == q by {
        lemma_past_gap(input, p + 1, q);
    }
}

/// A list goes on behind a comma and ends with a bracket, whatever white space
/// stands between, and however many items came before.
#[verifier::rlimit(40)]
pub proof fn lemma_items_parse(
    input: Seq<char>,
    pos: int,
    items: Seq<JsonView>,
    v: JsonView,
    end: int,
    p: int,
)
    requires
        0 <= pos < end <= input.len(),
        parsed_value(input, pos) == Ok::<(JsonView, int), Seq<char>>((v, end)),
        gap(input, end, p),
    ensures
        p < input.len() && input[p] == ',' ==> parsed_items(input, pos, items) == parsed_items(
            input,
            p + 1,
            items.push(v),
        ),
        p < input.len() && input[p] == ']' ==> parsed_items(input, pos, items) == Ok::<
            (JsonView, int),
            Seq<char>,
        >((JsonView::Array(items.push(v)), p + 1)),
        !(p < input.len() && (input[p] == ',' || input[p] == ']')) ==> parsed_items(
            input,
            pos,
            items,
        ) == Err::<(JsonView, int), Seq<char>>(
            "expected `,` or `]` at byte "@ + decimal(byte_len(input.take(p))),
        ),
{
    lemma_past_gap(input, end, p);
}

/// An object opens with a brace; behind it comes its first entry, or at once
/// the brace that closes it.
pub proof fn lemma_object_parse(input: Seq<char>, pos: int, p: int)
    requires
        0 <= pos < input.len(),
        input[pos] == '{',
        gap(input, pos + 1, p),
    ensures
        parsed_object(input, pos) == (if p < input.len() && input[p] == '}' {
            Ok::<(JsonView, int), Seq<char>>((JsonView::Object(Seq::empty()), p + 1))
        } else {
            parsed_fields(input, p, Seq::empty())
        }),
{
    lemma_past_gap(input, pos + 1, p);
}

/// An entry is a key, a colon and a value, with any white space between; its
/// value is set, a comma brings the next entry, and a brace ends the object.
#[verifier::rlimit(40)]
pub proof fn lemma_fields_parse(
    input: Seq<char>,
    entries: Seq<(Seq<char>, JsonView)>,
    at: (int, int, int, int, int),
    key: Seq<char>,
    v: JsonView,
    p: int,
)
    requires
        gap(input, at.0, at.1),
        parsed_key(input, at.1) == Ok::<(Seq<char>, int), Seq<char>>((key, at.2)),
        gap(input, at.2, at.3),
        at.3 < input.len(),
        input[at.3] == ':',
        at.1 <= at.3,
        parsed_value(input, at.3 + 1) == Ok::<(JsonView, int), Seq<char>>((v, at.4)),
        at.3 + 1 < at.4 <= input.len(),
        gap(input, at.4, p),
    ensures
        p < input.len() && input[p] == ',' ==> parsed_fields(input, at.0, entries) == parsed_fields(
            input,
            p + 1,
            entry_set(entries, key, v),
        ),
        p < input.len() && input[p] == '}' ==> parsed_fields(input, at.0, entries) == Ok::<
            (JsonView, int),
            Seq<char>,
        >((JsonView::Object(entry_set(entries, key, v)), p + 1)),
        !(p < input.len() && (input[p] == ',' || input[p] == '}')) ==> parsed_fields(
            input,
            at.0,
            entries,
        ) == Err::<(JsonView, int), Seq<char>>(
            "expected `,` or `}` at byte "@ + decimal(byte_len(input.take(p))),
        ),
{
    lemma_past_gap(input, at.0, at.1);
    lemma_past_gap(input, at.2, at.3);
    lemma_past_gap(input, at.4, p);
}

/// A bare key runs up to the next colon, comma or brace, without the white
/// space around it.
pub proof fn lemma_key_parse(input: Seq<char>, pos: int, end: int)
    requires
        0 <= pos <= end < input.len(),
        !stands_at(input, pos, "<|\"|>"@),
        forall|j: int|
            pos <= j < end ==> #[trigger] input[j] != ':' && input[j] != ',' && input[j] != '{'
                && input[j] != '}',
        input[end] == ':' || input[end] == ',' || input[end] == '{' || input[end] == '}',
    ensures
        ({
            let key = trimmed(input.subrange(pos, end));
            parsed_key(input, pos) == (if key.len() > 0 {
                Ok::<(Seq<char>, int), Seq<char>>((key, end))
            } else {
                Err("empty key at byte "@ + decimal(byte_len(input.take(pos))))
            })
        }),
{
    let rest = input.skip(pos);
    let n = (end - pos) as nat;
    assert forall|i: int| 0 <= i < n implies !(|c: char| ends_key(c))(#[trigger] rest[i]) by {
        assert(rest[i] == input[pos + i]);
    }
    assert(rest[n as int] == input[end]);
    lemma_run_len(rest, |c: char| ends_key(c), n);
    assert(rest.take(n as int) =~= input.subrange(pos, end));
}

/// A bare word runs up to the next comma, closing brace or bracket, or to the
/// end, without the white space around it.
pub proof fn lemma_word_parse(input: Seq<char>, pos: int, end: int)
    requires
        0 <= pos <= end <= input.len(),
        forall|j: int|
            pos <= j < end ==> #[trigger] input[j] != ',' && input[j] != '}' && input[j] != ']',
        end < input.len() ==> input[end] == ',' || input[end] == '}' || input[end] == ']',
    ensures
        ({
            let word = trimmed(input.subrange(pos, end));
            parsed_word(input, pos) == (if word.len() > 0 {
                Ok::<(JsonView, int), Seq<char>>((word_json(word), end))
            } else {
                Err("empty value at byte "@ + decimal(byte_len(input.take(end))))
            })
        }),
{
    let rest = input.skip(pos);
    let n = (end - pos) as nat;
    assert forall|i: int| 0 <= i < n implies !(|c: char| ends_value(c))(#[trigger] rest[i]) by {
        assert(rest[i] == input[pos + i]);
    }
    if n < rest.len() {
        assert(rest[n as int] == input[end]);
    }
    lemma_run_len(rest, |c: char| ends_value(c), n);
    assert(rest.take(n as int) =~= input.subrange(pos, end));
}

/// What a word stands for: `true`, `false`, nothing as `None` or `null`; an
/// integer that fits in 64 bits; a finite float; and any other word is text.
pub proof fn lemma_word_stands_for(word: Seq<char>)
    ensures
        word_json("true"@) == JsonView::Bool(true),
        word_json("false"@) == JsonView::Bool(false),
        word_json("None"@) == JsonView::Null,
        word_json("null"@) == JsonView::Null,
        word != "true"@ && word != "false"@ && word != "None"@ && word != "null"@ ==> (
        match parsed_i64(word) {
            Some(i) => word_json(word) == JsonView::Number(
                if i < 0 {
                    NumberView::NegInt(i)
                } else {
                    NumberView::PosInt(i as u64)
                },
            ),
            None => match float_text(word) {
                Some(t) => word_json(word) == JsonView::Number(NumberView::Float(t)),
                None => word_json(word) == JsonView::Text(word),
            },
        }),
{
    reveal_strlit("true");
    reveal_strlit("false");
    reveal_strlit("None");
    reveal_strlit("null");
    assert("true"@[0] == 't' && "false"@[0] == 'f' && "None"@[0] == 'N' && "null"@[0] == 'n');
}

} // verus!
