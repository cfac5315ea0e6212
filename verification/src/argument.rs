//! Gemma's argument syntax: JSON values written with `<|"|>` quotes, Python's
//! `None`, and sorted keys.

use vstd::prelude::*;
use vstd::string::*;

use crate::json::{
    dict_order, dict_ordered, dictsort, entry_keys, entry_views, json_view, json_views,
    lemma_dict_order_lists, lemma_dict_order_sorts, lemma_entry_views, lemma_json_views, lowercase,
    number_text, push_number, uppercase, Json, JsonView, NumberView,
};
use crate::text::{decimal, signed_decimal, text_before};

verus! {

/// `<|"|>`, the escape/quote token strings are wrapped in.
pub const QUOTE: &'static str = "<|\"|>";

/// A text between quotes.
pub open spec fn quoted(s: Seq<char>) -> Seq<char> {
    QUOTE@ + s + QUOTE@
}

/// Texts with commas between them.
pub open spec fn joined(parts: Seq<Seq<char>>) -> Seq<char>
    decreases parts.len(),
{
    if parts.len() == 0 {
        Seq::empty()
    } else if parts.len() == 1 {
        parts[0]
    } else {
        joined(parts.drop_last()) + ","@ + parts.last()
    }
}

/// The keys of the entries of an object.
pub open spec fn keys_of(entries: Seq<(Seq<char>, JsonView)>) -> Seq<Seq<char>> {
    entries.map_values(|e: (Seq<char>, JsonView)| e.0)
}

/// `parts`, one for each entry of an object, in the order of the sorted keys.
pub open spec fn by_key<T>(entries: Seq<(Seq<char>, JsonView)>, parts: Seq<T>) -> Seq<T> {
    dict_order(keys_of(entries), entries.len()).map_values(|i: int| parts[i])
}

/// A value in Gemma's argument syntax: strings between quotes, object keys
/// sorted, and between quotes where `escape_keys`.
pub open spec fn argument_text(v: JsonView, escape_keys: bool) -> Seq<char>
    decreases v, 0nat,
{
    match v {
        JsonView::Text(s) => quoted(s),
        JsonView::Bool(b) => if b {
            "true"@
        } else {
            "false"@
        },
        JsonView::Null => "None"@,
        JsonView::Number(n) => number_text(n),
        JsonView::Array(items) => "["@ + joined(item_texts(items, escape_keys)) + "]"@,
        JsonView::Object(entries) => "{"@ + fields_text(entries, escape_keys) + "}"@,
    }
}

/// The entries of an object with commas between them, sorted by key.
pub open spec fn fields_text(entries: Seq<(Seq<char>, JsonView)>, escape_keys: bool) -> Seq<char>
    decreases entries, 1nat,
{
    joined(by_key(entries, field_texts(entries, escape_keys)))
}

/// Each value of a list in argument syntax.
pub open spec fn item_texts(items: Seq<JsonView>, escape_keys: bool) -> Seq<Seq<char>>
    decreases items, 0nat,
{
    if items.len() == 0 {
        Seq::empty()
    } else {
        item_texts(items.subrange(0, items.len() - 1), escape_keys).push(
            argument_text(items[items.len() - 1], escape_keys),
        )
    }
}

/// Each entry of an object as `key:value`.
pub open spec fn field_texts(entries: Seq<(Seq<char>, JsonView)>, escape_keys: bool) -> Seq<
    Seq<char>,
>
    decreases entries, 0nat,
{
    if entries.len() == 0 {
        Seq::empty()
    } else {
        let last = entries[entries.len() - 1];
        let key = if escape_keys {
            quoted(last.0)
        } else {
            last.0
        };
        field_texts(entries.subrange(0, entries.len() - 1), escape_keys).push(
            key + ":"@ + argument_text(last.1, escape_keys),
        )
    }
}

pub proof fn lemma_item_texts(items: Seq<JsonView>, escape_keys: bool)
    ensures
        item_texts(items, escape_keys).len() == items.len(),
        forall|i: int|
            0 <= i < items.len() ==> #[trigger] item_texts(items, escape_keys)[i] == argument_text(
                items[i],
                escape_keys,
            ),
    decreases items.len(),
{
    if items.len() > 0 {
        let head = items.subrange(0, items.len() - 1);
        lemma_item_texts(head, escape_keys);
        assert forall|i: int| 0 <= i < items.len() implies #[trigger] item_texts(
            items,
            escape_keys,
        )[i] == argument_text(items[i], escape_keys) by {
            if i < head.len() {
                assert(item_texts(head, escape_keys)[i] == argument_text(head[i], escape_keys));
            }
        }
    }
}

/// One entry of an object as `key:value`.
pub open spec fn field_text(key: Seq<char>, v: JsonView, escape_keys: bool) -> Seq<char> {
    (if escape_keys {
        quoted(key)
    } else {
        key
    }) + ":"@ + argument_text(v, escape_keys)
}

pub proof fn lemma_field_texts(entries: Seq<(Seq<char>, JsonView)>, escape_keys: bool)
    ensures
        field_texts(entries, escape_keys).len() == entries.len(),
        forall|i: int|
            0 <= i < entries.len() ==> #[trigger] field_texts(entries, escape_keys)[i]
                == field_text(entries[i].0, entries[i].1, escape_keys),
    decreases entries.len(),
{
    if entries.len() > 0 {
        let head = entries.subrange(0, entries.len() - 1);
        lemma_field_texts(head, escape_keys);
        assert forall|i: int| 0 <= i < entries.len() implies #[trigger] field_texts(
            entries,
            escape_keys,
        )[i] == field_text(entries[i].0, entries[i].1, escape_keys) by {
            if i < head.len() {
                assert(field_texts(head, escape_keys)[i] == field_text(
                    head[i].0,
                    head[i].1,
                    escape_keys,
                ));
            }
        }
    }
}

/// Adding one part to a list of joined parts.
pub proof fn lemma_join_push(parts: Seq<Seq<char>>, part: Seq<char>)
    ensures
        joined(parts.push(part)) == if parts.len() == 0 {
            part
        } else {
            joined(parts) + ","@ + part
        },
{
    assert(parts.push(part).drop_last() =~= parts);
}

/// Appends `s` between quotes.
pub fn push_quoted(out: &mut String, s: &str)
    ensures
        final(out)@ == old(out)@ + quoted(s@),
{
    let ghost start = out@;
    out.append(QUOTE);
    out.append(s);
    out.append(QUOTE);
    assert(start + QUOTE@ + s@ + QUOTE@ =~= start + (QUOTE@ + s@ + QUOTE@));
}

/// The sorted order of an object's entries, and what the views of its entries
/// are.
pub proof fn lemma_entries(entries: Seq<(String, Json)>)
    ensures
        entry_views(entries).len() == entries.len(),
        keys_of(entry_views(entries)) == entry_keys(entries),
        forall|i: int|
            0 <= i < entries.len() ==> #[trigger] entry_views(entries)[i] == (
                entries[i].0@,
                json_view(entries[i].1),
            ),
{
    lemma_entry_views(entries);
    assert(keys_of(entry_views(entries)) =~= entry_keys(entries));
}

/// Appends a value in Gemma's argument syntax. Strings are wrapped in
/// `<|"|>`; object keys are wrapped only when `escape_keys`.
pub fn format_argument(value: &Json, escape_keys: bool, out: &mut String)
    ensures
        final(out)@ == old(out)@ + argument_text(value@, escape_keys),
    decreases value,
{
    let ghost start = out@;
    match value {
        Json::Text(s) => push_quoted(out, s.as_str()),
        Json::Bool(b) => out.append(
            if *b {
                "true"
            } else {
                "false"
            },
        ),
        // Python `str(None)`.
        Json::Null => out.append("None"),
        Json::Number(n) => push_number(n, out),
        Json::Array(items) => {
            let ghost views = json_views(items@);
            let ghost parts = item_texts(views, escape_keys);
            proof {
                lemma_json_views(items@);
                lemma_item_texts(views, escape_keys);
            }
            out.append("[");
            let ghost opened = out@;
            let mut i: usize = 0;
            assert(opened + joined(parts.take(0)) =~= opened);
            while i < items.len()
                invariant
                    i <= items@.len(),
                    *value == Json::Array(*items),
                    views.len() == items@.len(),
                    parts.len() == items@.len(),
                    forall|k: int|
                        0 <= k < items@.len() ==> #[trigger] views[k] == json_view(items@[k]),
                    forall|k: int|
                        0 <= k < items@.len() ==> #[trigger] parts[k] == argument_text(
                            views[k],
                            escape_keys,
                        ),
                    out@ == opened + joined(parts.take(i as int)),
                decreases items@.len() - i,
            {
                proof {
                    assert(decreases_to!(*value => value->Array_0));
                    assert(decreases_to!(*items => items@));
                    assert(decreases_to!(items@ => items@[i as int]));
                    lemma_join_push(parts.take(i as int), parts[i as int]);
                    assert(parts.take(i as int).push(parts[i as int]) =~= parts.take(i + 1));
                    assert(views[i as int] == json_view(items@[i as int]));
                }
                let ghost so_far = joined(parts.take(i as int));
                if i > 0 {
                    out.append(",");
                }
                format_argument(&items[i], escape_keys, out);
                assert(out@ =~= opened + joined(parts.take(i + 1)));
                i = i + 1;
            }
            assert(parts.take(i as int) =~= parts);
            out.append("]");
            assert(out@ =~= start + ("["@ + joined(parts) + "]"@));
        },
        Json::Object(entries) => {
            assert(decreases_to!(*value => value->Object_0));
            out.append("{");
            push_fields(entries, escape_keys, out);
            out.append("}");
            let ghost views = entry_views(entries@);
            assert(out@ =~= start + ("{"@ + fields_text(views, escape_keys) + "}"@));
        },
    }
}

/// Appends the entries of an object, sorted by key.
pub fn push_fields(entries: &Vec<(String, Json)>, escape_keys: bool, out: &mut String)
    ensures
        final(out)@ == old(out)@ + fields_text(entry_views(entries@), escape_keys),
    decreases entries,
{
    let ghost views = entry_views(entries@);
    let ghost texts = field_texts(views, escape_keys);
    let ghost parts = by_key(views, texts);
    proof {
        lemma_entries(entries@);
        lemma_field_texts(views, escape_keys);
    }
    let ghost opened = out@;
    let order = dictsort(entries);
    let mut i: usize = 0;
    assert(opened + joined(parts.take(0)) =~= opened);
    while i < order.len()
        invariant
            i <= order@.len(),
            order@.len() == entries@.len(),
            views.len() == entries@.len(),
            order@.map_values(|i: usize| i as int) == dict_order(keys_of(views), views.len()),
            forall|k: int| 0 <= k < order@.len() ==> #[trigger] order@[k] < entries@.len(),
            forall|k: int|
                0 <= k < entries@.len() ==> #[trigger] views[k] == (
                    entries@[k].0@,
                    json_view(entries@[k].1),
                ),
            forall|k: int|
                0 <= k < entries@.len() ==> #[trigger] texts[k] == field_text(
                    views[k].0,
                    views[k].1,
                    escape_keys,
                ),
            texts.len() == entries@.len(),
            parts == by_key(views, texts),
            parts.len() == order@.len(),
            out@ == opened + joined(parts.take(i as int)),
        decreases order@.len() - i,
    {
        let e: usize = order[i];
        proof {
            assert(decreases_to!(*entries => entries@));
            assert(decreases_to!(entries@ => entries@[e as int]));
            assert(decreases_to!(entries@[e as int] => entries@[e as int].1));
            assert(order@.map_values(|i: usize| i as int)[i as int] == e);
            assert(parts[i as int] == texts[e as int]);
            assert(views[e as int].0 == entries@[e as int].0@);
            lemma_join_push(parts.take(i as int), parts[i as int]);
            assert(parts.take(i as int).push(parts[i as int]) =~= parts.take(i + 1));
        }
        if i > 0 {
            out.append(",");
        }
        let key = entries[e].0.as_str();
        if escape_keys {
            push_quoted(out, key);
        } else {
            out.append(key);
        }
        out.append(":");
        format_argument(&entries[e].1, escape_keys, out);
        assert(out@ =~= opened + joined(parts.take(i + 1)));
        i = i + 1;
    }
    assert(parts.take(i as int) =~= parts);
}

/// A value on its own: a string as it is, anything else in argument syntax.
pub open spec fn bare_text(v: JsonView) -> Seq<char> {
    match v {
        JsonView::Text(s) => s,
        _ => argument_text(v, true),
    }
}

/// The upper case of a value on its own.
pub open spec fn upper_text(v: JsonView) -> Seq<char> {
    uppercase(bare_text(v))
}

/// Values between quotes, with commas between them.
pub open spec fn quoted_items(items: Seq<JsonView>) -> Seq<char> {
    joined(items.map_values(|v: JsonView| quoted(bare_text(v))))
}

/// Appends a value on its own.
fn push_bare(value: &Json, out: &mut String)
    ensures
        final(out)@ == old(out)@ + bare_text(value@),
{
    match value {
        Json::Text(s) => out.append(s.as_str()),
        _ => format_argument(value, true, out),
    }
}

/// Upper case of a value on its own.
pub fn upper(value: &Json) -> (r: String)
    ensures
        r@ == upper_text(value@),
{
    let mut s = String::new();
    push_bare(value, &mut s);
    assert(s@ =~= bare_text(value@));
    s.as_str().to_uppercase()
}

/// Appends values between quotes, with commas between them.
pub fn push_quoted_list(items: &Vec<Json>, out: &mut String)
    ensures
        final(out)@ == old(out)@ + quoted_items(json_views(items@)),
{
    let ghost start = out@;
    let ghost views = json_views(items@);
    let ghost parts = views.map_values(|v: JsonView| quoted(bare_text(v)));
    proof {
        lemma_json_views(items@);
    }
    let mut i: usize = 0;
    assert(start + joined(parts.take(0)) =~= start);
    while i < items.len()
        invariant
            i <= items@.len(),
            views.len() == items@.len(),
            forall|k: int| 0 <= k < items@.len() ==> #[trigger] views[k] == json_view(items@[k]),
            parts == views.map_values(|v: JsonView| quoted(bare_text(v))),
            out@ == start + joined(parts.take(i as int)),
        decreases items@.len() - i,
    {
        proof {
            lemma_join_push(parts.take(i as int), parts[i as int]);
            assert(parts.take(i as int).push(parts[i as int]) =~= parts.take(i + 1));
            assert(views[i as int] == json_view(items@[i as int]));
        }
        if i > 0 {
            out.append(",");
        }
        out.append(QUOTE);
        push_bare(&items[i], out);
        out.append(QUOTE);
        assert(out@ =~= start + joined(parts.take(i + 1)));
        i = i + 1;
    }
    assert(parts.take(i as int) =~= parts);
}

/// Commas stand between texts and nowhere else: what a list comes to is what
/// its parts come to, with one comma where they meet.
pub proof fn lemma_joined_parts(a: Seq<Seq<char>>, t: Seq<char>, b: Seq<Seq<char>>)
    ensures
        joined(Seq::empty()) == Seq::<char>::empty(),
        joined(seq![t]) == t,
        a.len() > 0 && b.len() > 0 ==> joined(a + b) == joined(a) + seq![','] + joined(b),
    decreases b.len(),
{
    reveal_strlit(",");
    assert(","@ =~= seq![',']);
    if a.len() > 0 && b.len() > 0 {
        assert((a + b).drop_last() =~= a + b.drop_last());
        if b.len() == 1 {
            assert(a + b.drop_last() =~= a);
        } else {
            lemma_joined_parts(a, t, b.drop_last());
        }
        assert(joined(a + b) =~= joined(a) + seq![','] + joined(b));
    }
}

/// Every index is kept.
pub open spec fn every() -> spec_fn(int) -> bool {
    |i: int| true
}

/// Indices of entries, sorted by key without regard to case, each of those
/// that are kept listed once.
pub open spec fn sorted_listing(
    entries: Seq<(Seq<char>, JsonView)>,
    kept: spec_fn(int) -> bool,
    order: Seq<int>,
) -> bool {
    &&& order.no_duplicates()
    &&& forall|i: int| #[trigger]
        order.contains(i) <==> 0 <= i < entries.len() && kept(i)
    &&& in_order(entries, order)
}

/// The key of entry `a` comes first in lower case, or both come to the same
/// and it stood first.
pub open spec fn precedes(entries: Seq<(Seq<char>, JsonView)>, a: int, b: int) -> bool {
    let (x, y) = (lowercase(entries[a].0), lowercase(entries[b].0));
    text_before(x, y) || x == y && a < b
}

pub open spec fn in_order(entries: Seq<(Seq<char>, JsonView)>, order: Seq<int>) -> bool {
    forall|k: int, l: int|
        0 <= k < l < order.len() ==> precedes(entries, #[trigger] order[k], #[trigger] order[l])
}

/// How a value is written: a string between quotes, whole numbers in decimals,
/// a list as its items and an object as its entries in the order of their
/// keys, with commas between them and nothing left out.
pub proof fn lemma_argument_written(v: JsonView, escape_keys: bool)
    ensures
        match v {
            JsonView::Text(s) => argument_text(v, escape_keys) == "<|\"|>"@ + s + "<|\"|>"@,
            JsonView::Bool(b) => argument_text(v, escape_keys) == (if b {
                "true"@
            } else {
                "false"@
            }),
            JsonView::Null => argument_text(v, escape_keys) == "None"@,
            JsonView::Number(NumberView::PosInt(u)) => argument_text(v, escape_keys) == decimal(
                u as nat,
            ),
            JsonView::Number(NumberView::NegInt(i)) => argument_text(v, escape_keys)
                == signed_decimal(i as int),
            JsonView::Number(NumberView::Float(t)) => argument_text(v, escape_keys) == t,
            JsonView::Array(items) => argument_text(v, escape_keys) == "["@ + joined(
                Seq::new(items.len(), |i: int| argument_text(items[i], escape_keys)),
            ) + "]"@,
            JsonView::Object(entries) => exists|order: Seq<int>|
                {
                    &&& #[trigger] sorted_listing(entries, every(), order)
                    &&& argument_text(v, escape_keys) == "{"@ + joined(
                        Seq::new(
                            order.len(),
                            |k: int|
                                (if escape_keys {
                                    "<|\"|>"@ + entries[order[k]].0 + "<|\"|>"@
                                } else {
                                    entries[order[k]].0
                                }) + ":"@ + argument_text(entries[order[k]].1, escape_keys),
                        ),
                    ) + "}"@
                },
        },
{
    match v {
        JsonView::Array(items) => {
            lemma_item_texts(items, escape_keys);
            assert(item_texts(items, escape_keys) =~= Seq::new(
                items.len(),
                |i: int| argument_text(items[i], escape_keys),
            ));
        },
        JsonView::Object(entries) => {
            let order = dict_order(keys_of(entries), entries.len());
            lemma_field_texts(entries, escape_keys);
            lemma_listing(entries);
            assert(by_key(entries, field_texts(entries, escape_keys)) =~= Seq::new(
                order.len(),
                |k: int|
                    (if escape_keys {
                        "<|\"|>"@ + entries[order[k]].0 + "<|\"|>"@
                    } else {
                        entries[order[k]].0
                    }) + ":"@ + argument_text(entries[order[k]].1, escape_keys),
            ));
        },
        _ => {},
    }
}

/// Sorting lists every entry once, by key.
pub proof fn lemma_listing(entries: Seq<(Seq<char>, JsonView)>)
    ensures
        sorted_listing(entries, every(), dict_order(keys_of(entries), entries.len())),
        dict_order(keys_of(entries), entries.len()).len() == entries.len(),
        forall|k: int|
            0 <= k < entries.len() ==> 0 <= #[trigger] dict_order(
                keys_of(entries),
                entries.len(),
            )[k] < entries.len(),
{
    let keys = keys_of(entries);
    let order = dict_order(keys, entries.len());
    lemma_dict_order_lists(keys, entries.len());
    lemma_dict_order_sorts(keys, entries.len());
    assert forall|k: int, l: int| 0 <= k < l < order.len() implies precedes(
        entries,
        #[trigger] order[k],
        #[trigger] order[l],
    ) by {
        assert(dict_ordered(keys, order[k], order[l]));
    }
    assert forall|i: int| #[trigger] order.contains(i) <==> 0 <= i < entries.len() && every()(
        i,
    ) by {
        if order.contains(i) {
            assert(order[order.index_of(i)] == i);
        }
    }
}

/// The upper case of a value: of a string as it is, of anything else as it is
/// written; and a text between quotes.
pub proof fn lemma_upper_written(v: JsonView, s: Seq<char>)
    ensures
        upper_text(v) == uppercase(
            match v {
                JsonView::Text(t) => t,
                _ => argument_text(v, true),
            },
        ),
        quoted(s) == "<|\"|>"@ + s + "<|\"|>"@,
{
}

/// A list of names: each between quotes, with commas between them, in the
/// order given.
pub proof fn lemma_quoted_items_written(items: Seq<JsonView>)
    ensures
        quoted_items(items) == joined(
            Seq::new(
                items.len(),
                |i: int|
                    "<|\"|>"@ + (match items[i] {
                        JsonView::Text(t) => t,
                        _ => argument_text(items[i], true),
                    }) + "<|\"|>"@,
            ),
        ),
{
    assert(items.map_values(|v: JsonView| quoted(bare_text(v))) =~= Seq::new(
        items.len(),
        |i: int|
            "<|\"|>"@ + (match items[i] {
                JsonView::Text(t) => t,
                _ => argument_text(items[i], true),
            }) + "<|\"|>"@,
    ));
}

} // verus!
