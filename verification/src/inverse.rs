//! Parsing argument syntax gives back the value it was written from.

use vstd::prelude::*;
use vstd::string::*;

use crate::args::{
    char_at, ends_key, ends_value, lemma_run_len, parsed_fields, parsed_items,
    parsed_key, parsed_object, parsed_quoted, parsed_value, past_white, word_json,
};
use crate::argument::{
    argument_text, by_key, field_text, field_texts, fields_text, item_texts, joined, keys_of,
    lemma_field_texts, lemma_item_texts, quoted, QUOTE,
};
use crate::json::{
    dict_order, entry_place, entry_set, float_char, float_word, keys_sorted, lemma_dict_order_lists,
    number_text, JsonView, NumberView,
};
use crate::tokenizer::decoded;
use crate::toolcall::{
    first_brace, lemma_call_is_its_text, parsed_call, stepped_all, EventView, ParserView,
};
use crate::vocab::VocabView;
use crate::text::{
    first_at, is_white, leading_white, lemma_decimal_reads_back, lemma_no_integer,
    lemma_text_order, lemma_trim_nothing, stands_at, text_before,
};

verus! {

/// A key that stands bare: not empty, no white space around it, no character
/// that ends a key, and no quote at its start.
pub open spec fn bare_key(key: Seq<char>) -> bool {
    &&& key.len() > 0
    &&& !is_white(key[0])
    &&& !is_white(key.last())
    &&& forall|i: int| 0 <= i < key.len() ==> !ends_key(#[trigger] key[i])
    &&& !stands_at(key, 0, QUOTE@)
}

/// A value that argument syntax can tell: strings hold no quote, integers fit
/// in 64 bits with sign, floats are as they print (as every float is that
/// `Number::float` gives or the parser reads), and objects have their keys
/// sorted, each once and bare.
pub open spec fn legible(v: JsonView) -> bool
    decreases v,
{
    match v {
        JsonView::Null => true,
        JsonView::Bool(b) => true,
        JsonView::Number(n) => match n {
            NumberView::PosInt(u) => u <= i64::MAX,
            NumberView::NegInt(i) => i < 0,
            NumberView::Float(t) => float_word(t),
        },
        JsonView::Text(s) => forall|i: int| !#[trigger] stands_at(s, i, QUOTE@),
        JsonView::Array(items) => all_legible(items),
        JsonView::Object(entries) => keys_sorted(entries) && entries_legible(entries),
    }
}

pub open spec fn all_legible(items: Seq<JsonView>) -> bool
    decreases items,
{
    if items.len() == 0 {
        true
    } else {
        all_legible(items.subrange(0, items.len() - 1)) && legible(items[items.len() - 1])
    }
}

pub open spec fn entries_legible(entries: Seq<(Seq<char>, JsonView)>) -> bool
    decreases entries,
{
    if entries.len() == 0 {
        true
    } else {
        let last = entries[entries.len() - 1];
        entries_legible(entries.subrange(0, entries.len() - 1)) && bare_key(last.0) && legible(
            last.1,
        )
    }
}

proof fn lemma_all_legible(items: Seq<JsonView>, i: int)
    requires
        all_legible(items),
        0 <= i < items.len(),
    ensures
        legible(items[i]),
    decreases items.len(),
{
    if i < items.len() - 1 {
        lemma_all_legible(items.subrange(0, items.len() - 1), i);
    }
}

proof fn lemma_entries_legible(entries: Seq<(Seq<char>, JsonView)>, i: int)
    requires
        entries_legible(entries),
        0 <= i < entries.len(),
    ensures
        bare_key(entries[i].0),
        legible(entries[i].1),
    decreases entries.len(),
{
    if i < entries.len() - 1 {
        lemma_entries_legible(entries.subrange(0, entries.len() - 1), i);
    }
}

/// The marks of the syntax, as characters.
proof fn lemma_marks()
    ensures
        "["@ == seq!['['],
        "]"@ == seq![']'],
        "{"@ == seq!['{'],
        "}"@ == seq!['}'],
        ":"@ == seq![':'],
        ","@ == seq![','],
        "true"@ == seq!['t', 'r', 'u', 'e'],
        "false"@ == seq!['f', 'a', 'l', 's', 'e'],
        "None"@ == seq!['N', 'o', 'n', 'e'],
        "null"@ == seq!['n', 'u', 'l', 'l'],
        QUOTE@ == seq!['<', '|', '"', '|', '>'],
{
    reveal_strlit("[");
    reveal_strlit("]");
    reveal_strlit("{");
    reveal_strlit("}");
    reveal_strlit(":");
    reveal_strlit(",");
    reveal_strlit("true");
    reveal_strlit("false");
    reveal_strlit("None");
    reveal_strlit("null");
    reveal_strlit("<|\"|>");
    assert("["@ =~= seq!['[']);
    assert("]"@ =~= seq![']']);
    assert("{"@ =~= seq!['{']);
    assert("}"@ =~= seq!['}']);
    assert(":"@ =~= seq![':']);
    assert(","@ =~= seq![',']);
    assert("true"@ =~= seq!['t', 'r', 'u', 'e']);
    assert("false"@ =~= seq!['f', 'a', 'l', 's', 'e']);
    assert("None"@ =~= seq!['N', 'o', 'n', 'e']);
    assert("null"@ =~= seq!['n', 'u', 'l', 'l']);
    assert(QUOTE@ =~= seq!['<', '|', '"', '|', '>']);
}

/// No white space stands at `pos`.
proof fn lemma_no_white(input: Seq<char>, pos: int)
    requires
        0 <= pos < input.len(),
        !is_white(input[pos]),
    ensures
        past_white(input, pos) == pos,
{
    assert(input.skip(pos)[0] == input[pos]);
}

/// A part of a text that stands at `pos` gives its characters there.
proof fn lemma_stands_index(input: Seq<char>, pos: int, part: Seq<char>, i: int)
    requires
        stands_at(input, pos, part),
        0 <= i < part.len(),
    ensures
        input[pos + i] == part[i],
{
    assert(input.subrange(pos, pos + part.len())[i] == part[i]);
}

/// Where `a + b` stands, `a` stands, and `b` behind it.
proof fn lemma_stands_split(input: Seq<char>, pos: int, a: Seq<char>, b: Seq<char>)
    requires
        stands_at(input, pos, a + b),
    ensures
        stands_at(input, pos, a),
        stands_at(input, pos + a.len(), b),
{
    let all = input.subrange(pos, pos + (a + b).len());
    assert(input.subrange(pos, pos + a.len()) =~= a) by {
        assert forall|i: int| 0 <= i < a.len() implies input[pos + i] == a[i] by {
            assert(all[i] == (a + b)[i]);
        }
    }
    assert(input.subrange(pos + a.len(), pos + a.len() + b.len()) =~= b) by {
        assert forall|i: int| 0 <= i < b.len() implies input[pos + a.len() + i] == b[i] by {
            assert(all[a.len() + i] == (a + b)[a.len() + i]);
        }
    }
}

/// A value's text starts with a character that neither is white space nor
/// closes anything.
proof fn lemma_first_char(v: JsonView)
    requires
        legible(v),
    ensures
        argument_text(v, false).len() > 0,
        ({
            let c = argument_text(v, false)[0];
            !is_white(c) && c != ']' && c != '}'
        }),
{
    lemma_marks();
    match v {
        JsonView::Number(n) => {
            match n {
                NumberView::PosInt(u) => {
                    lemma_decimal_reads_back(u as i64);
                },
                NumberView::NegInt(i) => {
                    lemma_decimal_reads_back(i);
                },
                NumberView::Float(t) => {
                    assert(float_char(t[0]));
                },
            }
            let t = number_text(n);
            assert(t.len() > 0);
            assert(float_char(t[0]));
        },
        JsonView::Text(s) => {
            assert(quoted(s)[0] == '<');
        },
        _ => {},
    }
}

/// A bare word that stands at `pos`, before the end or a character that ends
/// a value, is read as that word.
proof fn lemma_word(input: Seq<char>, pos: int, word: Seq<char>)
    requires
        stands_at(input, pos, word),
        word.len() > 0,
        !is_white(word[0]),
        !is_white(word.last()),
        word[0] != '{',
        word[0] != '[',
        word[0] != '<',
        forall|i: int| 0 <= i < word.len() ==> !ends_value(#[trigger] word[i]),
        pos + word.len() == input.len() || ends_value(input[pos + word.len()]),
    ensures
        parsed_value(input, pos) == Ok::<(JsonView, int), Seq<char>>(
            (word_json(word), pos + word.len()),
        ),
{
    lemma_marks();
    lemma_stands_index(input, pos, word, 0);
    lemma_no_white(input, pos);
    if stands_at(input, pos, QUOTE@) {
        lemma_stands_index(input, pos, QUOTE@, 0);
    }
    let rest = input.skip(pos);
    let stops = |c: char| ends_value(c);
    assert forall|i: int| 0 <= i < word.len() implies !stops(#[trigger] rest[i]) by {
        lemma_stands_index(input, pos, word, i);
        assert(rest[i] == word[i]);
    }
    lemma_run_len(rest, stops, word.len());
    assert(rest.take(word.len() as int) =~= word) by {
        assert forall|i: int| 0 <= i < word.len() implies rest[i] == word[i] by {
            lemma_stands_index(input, pos, word, i);
        }
    }
    lemma_trim_nothing(word);
}

/// A quoted string that stands at `pos` is read as that string.
proof fn lemma_quoted(input: Seq<char>, pos: int, s: Seq<char>)
    requires
        stands_at(input, pos, quoted(s)),
        forall|i: int| !#[trigger] stands_at(s, i, QUOTE@),
    ensures
        stands_at(input, pos, QUOTE@),
        parsed_quoted(input, pos) == Ok::<(Seq<char>, int), Seq<char>>(
            (s, pos + quoted(s).len()),
        ),
{
    lemma_marks();
    let q = QUOTE@;
    assert(quoted(s) =~= q + (s + q));
    lemma_stands_split(input, pos, q, s + q);
    lemma_stands_split(input, pos + 5, s, q);
    let from = pos + 5;
    let end = from + s.len();
    assert(first_at(input, from, q, end)) by {
        assert forall|j: int| from <= j < end implies !#[trigger] stands_at(input, j, q) by {
            if stands_at(input, j, q) {
                if j + 5 <= end {
                    assert(s.subrange(j - from, j - from + 5) =~= q) by {
                        assert forall|i: int| 0 <= i < 5 implies s[j - from + i] == q[i] by {
                            lemma_stands_index(input, j, q, i);
                            lemma_stands_index(input, from, s, j - from + i);
                        }
                    }
                    assert(stands_at(s, j - from, q));
                } else {
                    lemma_stands_index(input, j, q, end - j);
                    lemma_stands_index(input, end, q, 0);
                }
            }
        }
    }
    let i = choose|i: int| first_at(input, from, q, i);
    assert(first_at(input, from, q, i));
    assert(i == end) by {
        if i < end {
            assert(!stands_at(input, i, q));
        } else if end < i {
            assert(!stands_at(input, end, q));
        }
    }
    assert(input.subrange(from, end) =~= s) by {
        assert forall|k: int| 0 <= k < s.len() implies input[from + k] == s[k] by {
            lemma_stands_index(input, from, s, k);
        }
    }
}

/// The parts from `k` on, with commas between them.
spec fn chain(parts: Seq<Seq<char>>, k: int) -> Seq<char>
    decreases parts.len() - k,
{
    if k < 0 || k >= parts.len() {
        Seq::empty()
    } else if k + 1 == parts.len() {
        parts[k]
    } else {
        parts[k] + ","@ + chain(parts, k + 1)
    }
}

proof fn lemma_chain_last(parts: Seq<Seq<char>>, k: int)
    requires
        0 <= k < parts.len() - 1,
    ensures
        chain(parts, k) == chain(parts.drop_last(), k) + ","@ + parts.last(),
    decreases parts.len() - k,
{
    let head = parts.drop_last();
    if k + 2 == parts.len() {
        assert(chain(parts, k + 1) == parts.last());
    } else {
        lemma_chain_last(parts, k + 1);
        assert(parts[k] + ","@ + (chain(head, k + 1) + ","@ + parts.last()) =~= parts[k] + ","@
            + chain(head, k + 1) + ","@ + parts.last());
    }
}

proof fn lemma_chain(parts: Seq<Seq<char>>)
    ensures
        joined(parts) == chain(parts, 0),
    decreases parts.len(),
{
    if parts.len() >= 2 {
        lemma_chain(parts.drop_last());
        lemma_chain_last(parts, 0);
    }
}

/// The entries before `m` whose index is in `seen`.
spec fn kept(entries: Seq<(Seq<char>, JsonView)>, seen: Set<int>, m: nat) -> Seq<
    (Seq<char>, JsonView),
>
    decreases m,
{
    if m == 0 {
        Seq::empty()
    } else if seen.contains(m - 1) {
        kept(entries, seen, (m - 1) as nat).push(entries[m - 1])
    } else {
        kept(entries, seen, (m - 1) as nat)
    }
}

/// The last kept entry is one of those before `m`.
proof fn lemma_kept_last(entries: Seq<(Seq<char>, JsonView)>, seen: Set<int>, m: nat)
    requires
        m <= entries.len(),
        kept(entries, seen, m).len() > 0,
    ensures
        exists|j: int| 0 <= j < m && #[trigger] entries[j] == kept(entries, seen, m).last(),
    decreases m,
{
    if seen.contains(m - 1) {
        assert(entries[m - 1] == kept(entries, seen, m).last());
    } else {
        lemma_kept_last(entries, seen, (m - 1) as nat);
    }
}

/// A new key belongs behind the kept keys that are smaller.
proof fn lemma_kept_place(entries: Seq<(Seq<char>, JsonView)>, seen: Set<int>, i: int, m: nat)
    requires
        keys_sorted(entries),
        0 <= i < entries.len(),
        i <= m <= entries.len(),
        !seen.contains(i),
    ensures
        entry_place(kept(entries, seen, m), entries[i].0) == kept(entries, seen, i as nat).len(),
    decreases m,
{
    let list = kept(entries, seen, m);
    let key = entries[i].0;
    if m == i {
        if list.len() > 0 {
            lemma_kept_last(entries, seen, m);
            let j = choose|j: int| 0 <= j < m && #[trigger] entries[j] == list.last();
            assert(text_before(entries[j].0, entries[i].0));
        }
    } else {
        lemma_kept_place(entries, seen, i, (m - 1) as nat);
        if seen.contains(m - 1) {
            assert(m - 1 != i);
            assert(text_before(entries[i].0, entries[m - 1].0));
            lemma_text_order(entries[i].0, entries[m - 1].0, key);
            assert(list.drop_last() =~= kept(entries, seen, (m - 1) as nat));
        }
    }
}

/// Keeping one more entry inserts it in its place.
proof fn lemma_kept_insert(entries: Seq<(Seq<char>, JsonView)>, seen: Set<int>, i: int, m: nat)
    requires
        0 <= i < entries.len(),
        m <= entries.len(),
        !seen.contains(i),
    ensures
        kept(entries, seen, i as nat).len() <= kept(entries, seen, m).len() || m < i,
        kept(entries, seen.insert(i), m) == if i < m {
            kept(entries, seen, m).insert(kept(entries, seen, i as nat).len() as int, entries[i])
        } else {
            kept(entries, seen, m)
        },
    decreases m,
{
    if m > 0 {
        lemma_kept_insert(entries, seen, i, (m - 1) as nat);
        let at = kept(entries, seen, i as nat).len() as int;
        let before = kept(entries, seen, (m - 1) as nat);
        if i == m - 1 {
            assert(before.push(entries[i]) =~= before.insert(at, entries[i]));
        } else if i < m - 1 && seen.contains(m - 1) {
            assert(before.insert(at, entries[i]).push(entries[m - 1]) =~= before.push(
                entries[m - 1],
            ).insert(at, entries[i]));
        }
    }
}

/// Setting a key that was not kept yet keeps its entry.
proof fn lemma_kept_set(entries: Seq<(Seq<char>, JsonView)>, seen: Set<int>, i: int)
    requires
        keys_sorted(entries),
        0 <= i < entries.len(),
        !seen.contains(i),
    ensures
        entry_set(kept(entries, seen, entries.len()), entries[i].0, entries[i].1) == kept(
            entries,
            seen.insert(i),
            entries.len(),
        ),
{
    let n = entries.len();
    let list = kept(entries, seen, n);
    let key = entries[i].0;
    lemma_kept_place(entries, seen, i, n);
    lemma_kept_insert(entries, seen, i, n);
    let at = kept(entries, seen, i as nat).len() as int;
    if at < list.len() && list[at].0 == key {
        lemma_kept_key(entries, seen, n, at);
        let j = choose|j: int| 0 <= j < n && seen.contains(j) && #[trigger] entries[j] == list[at];
        if j < i {
            assert(text_before(entries[j].0, entries[i].0));
        } else if i < j {
            assert(text_before(entries[i].0, entries[j].0));
        }
        lemma_text_order(key, key, key);
    }
}

/// Every kept entry has an index that was seen.
proof fn lemma_kept_key(entries: Seq<(Seq<char>, JsonView)>, seen: Set<int>, m: nat, k: int)
    requires
        m <= entries.len(),
        0 <= k < kept(entries, seen, m).len(),
    ensures
        exists|j: int|
            0 <= j < m && seen.contains(j) && #[trigger] entries[j] == kept(entries, seen, m)[k],
    decreases m,
{
    if seen.contains(m - 1) && k == kept(entries, seen, m).len() - 1 {
        assert(entries[m - 1] == kept(entries, seen, m)[k]);
    } else {
        lemma_kept_key(entries, seen, (m - 1) as nat, k);
        let j = choose|j: int|
            0 <= j < m - 1 && seen.contains(j) && #[trigger] entries[j] == kept(
                entries,
                seen,
                (m - 1) as nat,
            )[k];
        assert(entries[j] == kept(entries, seen, m)[k]);
    }
}

/// When every index was seen, every entry is kept.
proof fn lemma_kept_all(entries: Seq<(Seq<char>, JsonView)>, seen: Set<int>, m: nat)
    requires
        m <= entries.len(),
        forall|j: int| 0 <= j < entries.len() ==> seen.contains(j),
    ensures
        kept(entries, seen, m) == entries.take(m as int),
    decreases m,
{
    if m > 0 {
        lemma_kept_all(entries, seen, (m - 1) as nat);
        assert(entries.take(m as int) =~= entries.take(m - 1).push(entries[m - 1]));
    }
}

proof fn lemma_kept_none(entries: Seq<(Seq<char>, JsonView)>, m: nat)
    ensures
        kept(entries, Set::empty(), m) == Seq::<(Seq<char>, JsonView)>::empty(),
    decreases m,
{
    if m > 0 {
        lemma_kept_none(entries, (m - 1) as nat);
    }
}

/// The indices listed first in `order`.
spec fn listed(order: Seq<int>, k: int) -> Set<int> {
    Set::new(|j: int| exists|i: int| 0 <= i < k && i < order.len() && #[trigger] order[i] == j)
}

proof fn lemma_listed_next(order: Seq<int>, k: int)
    requires
        0 <= k < order.len(),
        order.no_duplicates(),
    ensures
        listed(order, k + 1) == listed(order, k).insert(order[k]),
        !listed(order, k).contains(order[k]),
{
    let next = listed(order, k + 1);
    let now = listed(order, k).insert(order[k]);
    assert forall|j: int| next.contains(j) == now.contains(j) by {
        if next.contains(j) {
            let i = choose|i: int| 0 <= i < k + 1 && i < order.len() && #[trigger] order[i] == j;
            if i < k {
                assert(order[i] == j);
            }
        }
        if listed(order, k).contains(j) {
            let i = choose|i: int| 0 <= i < k && i < order.len() && #[trigger] order[i] == j;
            assert(order[i] == j);
        }
        if j == order[k] {
            assert(0 <= k < k + 1 && k < order.len() && order[k] == j);
        }
    }
    assert(next =~= now);
}

/// The value at `pos` is read as `v`, up to `end`.
#[verifier::opaque]
spec fn reads_value(input: Seq<char>, pos: int, v: JsonView, end: int) -> bool {
    parsed_value(input, pos) == Ok::<(JsonView, int), Seq<char>>((v, end))
}

/// The rest of an object at `pos` behind `acc` is read as `entries`, up to
/// `end`.
#[verifier::opaque]
spec fn reads_fields(
    input: Seq<char>,
    pos: int,
    acc: Seq<(Seq<char>, JsonView)>,
    entries: Seq<(Seq<char>, JsonView)>,
    end: int,
) -> bool {
    parsed_fields(input, pos, acc) == Ok::<(JsonView, int), Seq<char>>(
        (JsonView::Object(entries), end),
    )
}

/// A value written at `pos` is read back, where it is followed by the end or
/// by a character that ends a value.
pub proof fn lemma_value_reads_back(input: Seq<char>, pos: int, v: JsonView)
    requires
        legible(v),
        stands_at(input, pos, argument_text(v, false)),
        ({
            let end = pos + argument_text(v, false).len();
            end == input.len() || ends_value(input[end])
        }),
    ensures
        parsed_value(input, pos) == Ok::<(JsonView, int), Seq<char>>(
            (v, pos + argument_text(v, false).len()),
        ),
{
    lemma_value_read(input, pos, v);
    reveal(reads_value);
}

proof fn lemma_value_read(input: Seq<char>, pos: int, v: JsonView)
    requires
        legible(v),
        stands_at(input, pos, argument_text(v, false)),
        ({
            let end = pos + argument_text(v, false).len();
            end == input.len() || ends_value(input[end])
        }),
    ensures
        reads_value(input, pos, v, pos + argument_text(v, false).len()),
    decreases v, 1nat,
{
    reveal(reads_value);
    lemma_marks();
    lemma_first_char(v);
    let text = argument_text(v, false);
    lemma_stands_index(input, pos, text, 0);
    lemma_no_white(input, pos);
    match v {
        JsonView::Null => {
            lemma_word(input, pos, text);
        },
        JsonView::Bool(b) => {
            lemma_word(input, pos, text);
        },
        JsonView::Number(n) => {
            lemma_number_word(n);
            lemma_word(input, pos, text);
        },
        JsonView::Text(s) => {
            lemma_quoted(input, pos, s);
        },
        JsonView::Array(items) => {
            let parts = item_texts(items, false);
            lemma_item_texts(items, false);
            lemma_chain(parts);
            let body = chain(parts, 0) + "]"@;
            assert(text =~= "["@ + body);
            lemma_stands_split(input, pos, "["@, body);
            if stands_at(input, pos, QUOTE@) {
                lemma_stands_index(input, pos, QUOTE@, 0);
            }
            if items.len() == 0 {
                assert(body =~= "]"@);
                lemma_stands_index(input, pos + 1, body, 0);
                lemma_no_white(input, pos + 1);
                assert(items =~= Seq::empty());
            } else {
                lemma_all_legible(items, 0);
                lemma_first_char(items[0]);
                assert(body[0] == parts[0][0]);
                lemma_stands_index(input, pos + 1, body, 0);
                lemma_no_white(input, pos + 1);
                assert(items.take(0) =~= Seq::empty());
                lemma_items_read_back(input, pos + 1, items, 0);
            }
        },
        JsonView::Object(entries) => {
            if stands_at(input, pos, QUOTE@) {
                lemma_stands_index(input, pos, QUOTE@, 0);
            }
            lemma_object_reads_back(input, pos, entries);
        },
    }
}

/// The word of a number, and what it is read as.
proof fn lemma_number_word(n: NumberView)
    requires
        legible(JsonView::Number(n)),
    ensures
        ({
            let t = number_text(n);
            &&& t.len() > 0
            &&& !is_white(t[0])
            &&& !is_white(t.last())
            &&& t[0] != '{' && t[0] != '[' && t[0] != '<'
            &&& forall|i: int| 0 <= i < t.len() ==> !ends_value(#[trigger] t[i])
            &&& word_json(t) == JsonView::Number(n)
        }),
{
    lemma_marks();
    let t = number_text(n);
    match n {
        NumberView::PosInt(u) => {
            lemma_decimal_reads_back(u as i64);
        },
        NumberView::NegInt(i) => {
            lemma_decimal_reads_back(i);
        },
        NumberView::Float(f) => {
            lemma_no_integer(f);
        },
    }
    assert forall|i: int| 0 <= i < t.len() implies float_char(#[trigger] t[i]) by {}
    assert(float_char(t[0]) && float_char(t[t.len() - 1]));
    assert("true"@[0] == 't' && "false"@[0] == 'f' && "None"@[0] == 'N' && "null"@[0] == 'n');
}

proof fn lemma_items_read_back(input: Seq<char>, pos: int, items: Seq<JsonView>, k: int)
    requires
        all_legible(items),
        0 <= k < items.len(),
        stands_at(input, pos, chain(item_texts(items, false), k) + "]"@),
    ensures
        parsed_items(input, pos, items.take(k)) == Ok::<(JsonView, int), Seq<char>>(
            (JsonView::Array(items), pos + chain(item_texts(items, false), k).len() + 1),
        ),
    decreases items, items.len() - k,
{
    lemma_marks();
    let parts = item_texts(items, false);
    lemma_item_texts(items, false);
    lemma_all_legible(items, k);
    let text = parts[k];
    let end = pos + text.len();
    assert(text == argument_text(items[k], false));
    assert(decreases_to!(items => items[k]));
    assert(items.take(k).push(items[k]) =~= items.take(k + 1));
    if k + 1 == items.len() {
        lemma_stands_split(input, pos, text, "]"@);
        lemma_stands_index(input, end, "]"@, 0);
        lemma_value_read(input, pos, items[k]);
        reveal(reads_value);
        lemma_first_char(items[k]);
        lemma_no_white(input, end);
        assert(items.take(k + 1) =~= items);
    } else {
        let more = chain(parts, k + 1) + "]"@;
        assert(chain(parts, k) + "]"@ =~= text + (","@ + more));
        lemma_stands_split(input, pos, text, ","@ + more);
        lemma_stands_split(input, end, ","@, more);
        lemma_stands_index(input, end, ","@, 0);
        lemma_value_read(input, pos, items[k]);
        reveal(reads_value);
        lemma_first_char(items[k]);
        lemma_no_white(input, end);
        lemma_items_read_back(input, end + 1, items, k + 1);
    }
}

/// An object written at `pos` is read back.
pub proof fn lemma_object_reads_back(
    input: Seq<char>,
    pos: int,
    entries: Seq<(Seq<char>, JsonView)>,
)
    requires
        keys_sorted(entries),
        entries_legible(entries),
        stands_at(input, pos, "{"@ + fields_text(entries, false) + "}"@),
    ensures
        parsed_object(input, pos) == Ok::<(JsonView, int), Seq<char>>(
            (JsonView::Object(entries), pos + fields_text(entries, false).len() + 2),
        ),
    decreases entries, entries.len() + 1,
{
    lemma_marks();
    let texts = field_texts(entries, false);
    let order = dict_order(keys_of(entries), entries.len());
    let parts = by_key(entries, texts);
    lemma_field_texts(entries, false);
    lemma_dict_order_lists(keys_of(entries), entries.len());
    lemma_chain(parts);
    let body = chain(parts, 0) + "}"@;
    assert("{"@ + fields_text(entries, false) + "}"@ =~= "{"@ + body);
    lemma_stands_split(input, pos, "{"@, body);
    lemma_stands_index(input, pos, "{"@, 0);
    if entries.len() == 0 {
        assert(body =~= "}"@);
        lemma_stands_index(input, pos + 1, body, 0);
        lemma_no_white(input, pos + 1);
        assert(entries =~= Seq::empty());
    } else {
        let e = order[0];
        lemma_entries_legible(entries, e);
        assert(parts[0] == field_text(entries[e].0, entries[e].1, false));
        assert(body[0] == entries[e].0[0]);
        lemma_stands_index(input, pos + 1, body, 0);
        assert(!ends_key(entries[e].0[0]));
        lemma_no_white(input, pos + 1);
        lemma_kept_none(entries, entries.len());
        assert(listed(order, 0) =~= Set::empty());
        lemma_fields_read_back(input, pos + 1, entries, 0);
        reveal(reads_fields);
    }
}

proof fn lemma_fields_read_back(
    input: Seq<char>,
    pos: int,
    entries: Seq<(Seq<char>, JsonView)>,
    k: int,
)
    requires
        keys_sorted(entries),
        entries_legible(entries),
        0 <= k < entries.len(),
        stands_at(
            input,
            pos,
            chain(by_key(entries, field_texts(entries, false)), k) + "}"@,
        ),
    ensures
        ({
            let parts = by_key(entries, field_texts(entries, false));
            let order = dict_order(keys_of(entries), entries.len());
            let acc = kept(entries, listed(order, k), entries.len());
            reads_fields(input, pos, acc, entries, pos + chain(parts, k).len() + 1)
        }),
    decreases entries, entries.len() - k,
{
    lemma_marks();
    let n = entries.len();
    let order = dict_order(keys_of(entries), n);
    let parts = by_key(entries, field_texts(entries, false));
    let e = order[k];
    let (key, v) = entries[e];
    let text = argument_text(v, false);
    lemma_written_entry(entries, k);
    lemma_entry_kept(entries, k);
    assert(decreases_to!(entries => entries[e]));
    assert(decreases_to!(entries[e] => entries[e].1));
    let acc = kept(entries, listed(order, k), n);
    let last = k + 1 == n;
    let tail = behind_field(parts, k);
    lemma_chain_text(parts, k, key, text);
    let end = pos + key.len() + 1 + text.len();
    lemma_field_stands(input, pos, key, text, tail);
    lemma_value_read(input, pos + key.len() + 1, v);
    let fin = pos + chain(parts, k).len() + 1;
    lemma_field_step(input, pos, acc, key, v, end, entries, fin);
    if !last {
        lemma_stands_split(input, end, ","@, chain(parts, k + 1) + "}"@);
        lemma_fields_read_back(input, end + 1, entries, k + 1);
    }
}

/// What follows the field in place `k`.
spec fn behind_field(parts: Seq<Seq<char>>, k: int) -> Seq<char> {
    if k + 1 == parts.len() {
        "}"@
    } else {
        ","@ + (chain(parts, k + 1) + "}"@)
    }
}

proof fn lemma_chain_text(parts: Seq<Seq<char>>, k: int, key: Seq<char>, text: Seq<char>)
    requires
        0 <= k < parts.len(),
        parts[k] == key + ":"@ + text,
    ensures
        chain(parts, k) + "}"@ == key + (":"@ + (text + behind_field(parts, k))),
        behind_field(parts, k).len() > 0,
        behind_field(parts, k)[0] == (if k + 1 == parts.len() {
            '}'
        } else {
            ','
        }),
        key.len() + 1 + text.len() + (if k + 1 == parts.len() {
            0
        } else {
            1 + chain(parts, k + 1).len()
        }) == chain(parts, k).len(),
{
    lemma_marks();
    if k + 1 == parts.len() {
        assert(key + ":"@ + text + "}"@ =~= key + (":"@ + (text + "}"@)));
    } else {
        let c = chain(parts, k + 1);
        assert(key + ":"@ + text + ","@ + c + "}"@ =~= key + (":"@ + (text + (","@ + (c
            + "}"@)))));
    }
}

/// The entry that is written in place `k`.
proof fn lemma_written_entry(entries: Seq<(Seq<char>, JsonView)>, k: int)
    requires
        entries_legible(entries),
        0 <= k < entries.len(),
    ensures
        ({
            let e = dict_order(keys_of(entries), entries.len())[k];
            let parts = by_key(entries, field_texts(entries, false));
            &&& 0 <= e < entries.len()
            &&& parts.len() == entries.len()
            &&& parts[k] == entries[e].0 + ":"@ + argument_text(entries[e].1, false)
            &&& bare_key(entries[e].0)
            &&& legible(entries[e].1)
            &&& argument_text(entries[e].1, false).len() > 0
        }),
{
    let e = dict_order(keys_of(entries), entries.len())[k];
    lemma_field_texts(entries, false);
    lemma_dict_order_lists(keys_of(entries), entries.len());
    assert(field_texts(entries, false)[e] == field_text(entries[e].0, entries[e].1, false));
    lemma_entries_legible(entries, e);
    lemma_first_char(entries[e].1);
}

/// Setting the key written in place `k` keeps one entry more; with the last,
/// all are kept.
proof fn lemma_entry_kept(entries: Seq<(Seq<char>, JsonView)>, k: int)
    requires
        keys_sorted(entries),
        0 <= k < entries.len(),
    ensures
        ({
            let n = entries.len();
            let order = dict_order(keys_of(entries), n);
            let e = order[k];
            let next = kept(entries, listed(order, k + 1), n);
            &&& entry_set(kept(entries, listed(order, k), n), entries[e].0, entries[e].1) == next
            &&& k + 1 == n ==> next == entries
        }),
{
    let n = entries.len();
    let order = dict_order(keys_of(entries), n);
    lemma_dict_order_lists(keys_of(entries), n);
    lemma_listed_next(order, k);
    lemma_kept_set(entries, listed(order, k), order[k]);
    if k + 1 == n {
        let all = listed(order, k + 1);
        assert forall|j: int| 0 <= j < n implies all.contains(j) by {
            assert(order.contains(j));
            let i = order.index_of(j);
            assert(0 <= i < k + 1 && i < order.len() && order[i] == j);
        }
        lemma_kept_all(entries, all, n);
        assert(entries.take(n as int) =~= entries);
    }
}

/// The parts of a written field, where they stand.
proof fn lemma_field_stands(
    input: Seq<char>,
    pos: int,
    key: Seq<char>,
    text: Seq<char>,
    tail: Seq<char>,
)
    requires
        stands_at(input, pos, key + (":"@ + (text + tail))),
        tail.len() > 0,
    ensures
        stands_at(input, pos, key),
        char_at(input, pos + key.len(), ':'),
        stands_at(input, pos + key.len() + 1, text),
        stands_at(input, pos + key.len() + 1 + text.len(), tail),
        char_at(input, pos + key.len() + 1 + text.len(), tail[0]),
{
    lemma_marks();
    lemma_stands_split(input, pos, key, ":"@ + (text + tail));
    let colon = pos + key.len();
    lemma_stands_split(input, colon, ":"@, text + tail);
    lemma_stands_index(input, colon, ":"@, 0);
    lemma_stands_split(input, colon + 1, text, tail);
    lemma_stands_index(input, colon + 1 + text.len(), tail, 0);
}

/// One field read: a key, a colon, a value, and what follows.
proof fn lemma_field_step(
    input: Seq<char>,
    pos: int,
    acc: Seq<(Seq<char>, JsonView)>,
    key: Seq<char>,
    v: JsonView,
    end: int,
    entries: Seq<(Seq<char>, JsonView)>,
    fin: int,
)
    requires
        bare_key(key),
        stands_at(input, pos, key),
        char_at(input, pos + key.len(), ':'),
        reads_value(input, pos + key.len() + 1, v, end),
        pos + key.len() + 1 < end,
        char_at(input, end, ',') || char_at(input, end, '}'),
    ensures
        char_at(input, end, ',') && reads_fields(
            input,
            end + 1,
            entry_set(acc, key, v),
            entries,
            fin,
        ) ==> reads_fields(input, pos, acc, entries, fin),
        char_at(input, end, '}') ==> reads_fields(
            input,
            pos,
            acc,
            entry_set(acc, key, v),
            end + 1,
        ),
{
    reveal(reads_value);
    reveal(reads_fields);
    lemma_key_reads_back(input, pos, key);
    lemma_no_white(input, pos + key.len());
    lemma_no_white(input, end);
}

/// A bare key before a colon is read back.
proof fn lemma_key_reads_back(input: Seq<char>, pos: int, key: Seq<char>)
    requires
        bare_key(key),
        stands_at(input, pos, key),
        char_at(input, pos + key.len(), ':'),
    ensures
        past_white(input, pos) == pos,
        parsed_key(input, pos) == Ok::<(Seq<char>, int), Seq<char>>((key, pos + key.len())),
{
    lemma_marks();
    lemma_stands_index(input, pos, key, 0);
    lemma_no_white(input, pos);
    let q = QUOTE@;
    if stands_at(input, pos, q) {
        assert forall|i: int| 0 <= i < 5 && i < key.len() implies key[i] == q[i] by {
            lemma_stands_index(input, pos, q, i);
            lemma_stands_index(input, pos, key, i);
        }
        if key.len() >= 5 {
            assert(key.subrange(0, 5) =~= q);
            assert(stands_at(key, 0, q));
        } else {
            lemma_stands_index(input, pos, q, key.len() as int);
        }
    }
    let rest = input.skip(pos);
    let stops = |c: char| ends_key(c);
    assert forall|i: int| 0 <= i < key.len() implies !stops(#[trigger] rest[i]) by {
        lemma_stands_index(input, pos, key, i);
        assert(rest[i] == key[i]);
    }
    lemma_run_len(rest, stops, key.len());
    assert(rest.take(key.len() as int) =~= key) by {
        assert forall|i: int| 0 <= i < key.len() implies rest[i] == key[i] by {
            lemma_stands_index(input, pos, key, i);
        }
    }
    lemma_trim_nothing(key);
}

/// A tool call as it is written between its markers is read back.
pub proof fn lemma_call_reads_back(name: Seq<char>, entries: Seq<(Seq<char>, JsonView)>)
    requires
        name.len() > 0,
        !is_white(name[0]),
        !is_white(name.last()),
        forall|i: int| 0 <= i < name.len() ==> #[trigger] name[i] != '{',
        legible(JsonView::Object(entries)),
    ensures
        parsed_call("call:"@ + name + "{"@ + fields_text(entries, false) + "}"@) == Ok::<
            (Seq<char>, JsonView),
            Seq<char>,
        >((name, JsonView::Object(entries))),
{
    lemma_marks();
    let prefix = "call:"@;
    let object = "{"@ + fields_text(entries, false) + "}"@;
    let raw = prefix + name + "{"@ + fields_text(entries, false) + "}"@;
    assert(raw =~= prefix + (name + object));
    let rest = raw.skip(prefix.len() as int);
    assert(rest =~= name + object);
    assert(raw.subrange(0, prefix.len() as int) =~= prefix);
    assert(first_brace(rest, name.len() as int)) by {
        assert(object[0] == '{');
        assert forall|j: int| 0 <= j < name.len() implies #[trigger] rest[j] != '{' by {
            assert(rest[j] == name[j]);
        }
    }
    let brace = choose|i: int| first_brace(rest, i);
    assert(first_brace(rest, brace));
    assert(brace == name.len());
    assert(rest.take(brace) =~= name);
    lemma_trim_nothing(name);
    assert(rest.skip(brace) =~= object);
    assert(object.subrange(0, object.len() as int) =~= object);
    lemma_object_reads_back(object, 0, entries);
    assert(object.skip(object.len() as int) =~= Seq::empty());
    assert(leading_white(object.skip(object.len() as int)) == 0);
}

/// A tool call that is written, and streamed in any tokens that decode to what
/// was written, comes back as the same call: its name and its arguments.
pub proof fn lemma_call_streams_back(
    p: ParserView,
    v: VocabView,
    ids: Seq<u32>,
    name: Seq<char>,
    entries: Seq<(Seq<char>, JsonView)>,
)
    requires
        p.apart(),
        forall|k: int| 0 <= k < ids.len() ==> !p.is_control(#[trigger] ids[k]),
        name.len() > 0,
        !is_white(name[0]),
        !is_white(name.last()),
        forall|i: int| 0 <= i < name.len() ==> #[trigger] name[i] != '{',
        legible(JsonView::Object(entries)),
        decoded(v, ids) == "call:"@ + name + "{"@ + fields_text(entries, false) + "}"@,
    ensures
        stepped_all(p, v, seq![p.tool_call_open] + ids + seq![p.tool_call_close]).1
            == p.segment_ended().1 + seq![
            EventView::ToolCall { name, arguments: JsonView::Object(entries) },
        ],
{
    lemma_call_is_its_text(p, v, ids);
    lemma_call_reads_back(name, entries);
}

} // verus!
