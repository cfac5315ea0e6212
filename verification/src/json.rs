//! JSON values as the chat template and the tool-call parser handle them.

use vstd::prelude::*;
use vstd::string::*;

use crate::text::{
    before, chars_of, decimal, lemma_text_order, push_decimal, push_signed, same_text, signed_decimal, text_before,
};

verus! {

/// A JSON number. `Float` holds a number that is no integer literal, as
/// `serde_json` prints it: the shortest decimal, with a point or an exponent.
#[derive(Debug, Clone, PartialEq, Eq)]
pub enum Number {
    PosInt(u64),
    NegInt(i64),
    Float(String),
}

/// A JSON value. The entries of an object stand in the order in which the map
/// they came from lists them: by key.
#[derive(Debug, PartialEq, Eq)]
pub enum Json {
    Null,
    Bool(bool),
    Number(Number),
    Text(String),
    Array(Vec<Json>),
    Object(Vec<(String, Json)>),
}

pub enum NumberView {
    PosInt(u64),
    NegInt(i64),
    Float(Seq<char>),
}

/// A JSON value with its strings as texts.
pub enum JsonView {
    Null,
    Bool(bool),
    Number(NumberView),
    Text(Seq<char>),
    Array(Seq<JsonView>),
    Object(Seq<(Seq<char>, JsonView)>),
}

impl View for Number {
    type V = NumberView;

    open spec fn view(&self) -> NumberView {
        match *self {
            Number::PosInt(n) => NumberView::PosInt(n),
            Number::NegInt(i) => NumberView::NegInt(i),
            Number::Float(t) => NumberView::Float(t@),
        }
    }
}

pub open spec fn json_view(j: Json) -> JsonView
    decreases j,
{
    match j {
        Json::Null => JsonView::Null,
        Json::Bool(b) => JsonView::Bool(b),
        Json::Number(n) => JsonView::Number(n@),
        Json::Text(s) => JsonView::Text(s@),
        Json::Array(items) => JsonView::Array(json_views(items@)),
        Json::Object(entries) => JsonView::Object(entry_views(entries@)),
    }
}

pub open spec fn json_views(items: Seq<Json>) -> Seq<JsonView>
    decreases items,
{
    if items.len() == 0 {
        Seq::empty()
    } else {
        json_views(items.subrange(0, items.len() - 1)).push(json_view(items[items.len() - 1]))
    }
}

pub open spec fn entry_views(entries: Seq<(String, Json)>) -> Seq<(Seq<char>, JsonView)>
    decreases entries,
{
    if entries.len() == 0 {
        Seq::empty()
    } else {
        let last = entries[entries.len() - 1];
        entry_views(entries.subrange(0, entries.len() - 1)).push((last.0@, json_view(last.1)))
    }
}

impl View for Json {
    type V = JsonView;

    open spec fn view(&self) -> JsonView {
        json_view(*self)
    }
}

pub proof fn lemma_json_views(items: Seq<Json>)
    ensures
        json_views(items).len() == items.len(),
        forall|i: int|
            0 <= i < items.len() ==> #[trigger] json_views(items)[i] == json_view(items[i]),
    decreases items.len(),
{
    if items.len() > 0 {
        let head = items.subrange(0, items.len() - 1);
        lemma_json_views(head);
        assert forall|i: int| 0 <= i < items.len() implies #[trigger] json_views(items)[i]
            == json_view(items[i]) by {
            if i < head.len() {
                assert(json_views(head)[i] == json_view(head[i]));
            }
        }
    }
}

pub proof fn lemma_entry_views(entries: Seq<(String, Json)>)
    ensures
        entry_views(entries).len() == entries.len(),
        forall|i: int|
            0 <= i < entries.len() ==> #[trigger] entry_views(entries)[i] == (
                entries[i].0@,
                json_view(entries[i].1),
            ),
    decreases entries.len(),
{
    if entries.len() > 0 {
        let head = entries.subrange(0, entries.len() - 1);
        lemma_entry_views(head);
        assert forall|i: int| 0 <= i < entries.len() implies #[trigger] entry_views(entries)[i] == (
            entries[i].0@,
            json_view(entries[i].1),
        ) by {
            if i < head.len() {
                assert(entry_views(head)[i] == (head[i].0@, json_view(head[i].1)));
            }
        }
    }
}

/// A copy of a value.
fn copy_json(j: &Json) -> (r: Json)
    ensures
        r@ == j@,
    decreases j,
{
    match j {
        Json::Null => Json::Null,
        Json::Bool(b) => Json::Bool(*b),
        Json::Number(Number::PosInt(n)) => Json::Number(Number::PosInt(*n)),
        Json::Number(Number::NegInt(i)) => Json::Number(Number::NegInt(*i)),
        Json::Number(Number::Float(t)) => Json::Number(Number::Float(t.clone())),
        Json::Text(s) => Json::Text(s.clone()),
        Json::Array(items) => {
            let mut out: Vec<Json> = Vec::new();
            let mut i: usize = 0;
            assert(json_views(out@) =~= json_views(items@.take(0)));
            while i < items.len()
                invariant
                    i <= items@.len(),
                    *j == Json::Array(*items),
                    json_views(out@) == json_views(items@.take(i as int)),
                decreases items@.len() - i,
            {
                assert(decreases_to!(*j => j->Array_0));
                assert(decreases_to!(*items => items@));
                assert(decreases_to!(items@ => items@[i as int]));
                let ghost before = out@;
                out.push(copy_json(&items[i]));
                assert(out@.subrange(0, out@.len() - 1) =~= before);
                assert(items@.take(i + 1).subrange(0, i as int) =~= items@.take(i as int));
                i = i + 1;
            }
            assert(items@.take(i as int) =~= items@);
            Json::Array(out)
        },
        Json::Object(entries) => {
            let mut out: Vec<(String, Json)> = Vec::new();
            let mut i: usize = 0;
            assert(entry_views(out@) =~= entry_views(entries@.take(0)));
            while i < entries.len()
                invariant
                    i <= entries@.len(),
                    *j == Json::Object(*entries),
                    entry_views(out@) == entry_views(entries@.take(i as int)),
                decreases entries@.len() - i,
            {
                assert(decreases_to!(*j => j->Object_0));
                assert(decreases_to!(*entries => entries@));
                assert(decreases_to!(entries@ => entries@[i as int]));
                assert(decreases_to!(entries@[i as int] => entries@[i as int].1));
                let ghost before = out@;
                out.push((entries[i].0.clone(), copy_json(&entries[i].1)));
                assert(out@.subrange(0, out@.len() - 1) =~= before);
                assert(entries@.take(i + 1).subrange(0, i as int) =~= entries@.take(i as int));
                i = i + 1;
            }
            assert(entries@.take(i as int) =~= entries@);
            Json::Object(out)
        },
    }
}

impl Clone for Json {
    fn clone(&self) -> (r: Self)
        ensures
            r@ == self@,
    {
        copy_json(self)
    }
}

/// A number as it prints.
pub open spec fn number_text(n: NumberView) -> Seq<char> {
    match n {
        NumberView::PosInt(u) => decimal(u as nat),
        NumberView::NegInt(i) => signed_decimal(i as int),
        NumberView::Float(t) => t,
    }
}

/// `i` is the first entry with the key `key`.
pub open spec fn entry_at(entries: Seq<(Seq<char>, JsonView)>, key: Seq<char>, i: int) -> bool {
    &&& 0 <= i < entries.len()
    &&& entries[i].0 == key
    &&& forall|j: int| 0 <= j < i ==> (#[trigger] entries[j]).0 != key
}

pub open spec fn has_key(entries: Seq<(Seq<char>, JsonView)>, key: Seq<char>) -> bool {
    exists|i: int| entry_at(entries, key, i)
}

/// The index of the first entry with the key `key`.
pub open spec fn key_index(entries: Seq<(Seq<char>, JsonView)>, key: Seq<char>) -> int {
    choose|i: int| entry_at(entries, key, i)
}

/// The member `key` of an object; nothing of any other value.
pub open spec fn member(v: JsonView, key: Seq<char>) -> Option<JsonView> {
    match v {
        JsonView::Object(entries) => if has_key(entries, key) {
            Some(entries[key_index(entries, key)].1)
        } else {
            None
        },
        _ => None,
    }
}

/// Python truthiness of a value.
pub open spec fn is_truthy(v: JsonView) -> bool {
    match v {
        JsonView::Null => false,
        JsonView::Bool(b) => b,
        JsonView::Number(n) => match n {
            NumberView::PosInt(u) => u != 0,
            NumberView::NegInt(i) => i != 0,
            NumberView::Float(t) => t != "0.0"@ && t != "-0.0"@,
        },
        JsonView::Text(s) => s.len() > 0,
        JsonView::Array(items) => items.len() > 0,
        JsonView::Object(entries) => entries.len() > 0,
    }
}

impl Json {
    /// The member `key` of an object.
    pub fn get(&self, key: &str) -> (r: Option<&Json>)
        ensures
            match r {
                Some(v) => member(self@, key@) == Some(v@),
                None => member(self@, key@) is None,
            },
            r matches Some(v) ==> decreases_to!(self => v),
    {
        match self {
            Json::Object(entries) => {
                let ghost views = entry_views(entries@);
                proof {
                    lemma_entry_views(entries@);
                }
                let mut i: usize = 0;
                while i < entries.len()
                    invariant
                        i <= entries@.len(),
                        self@ == JsonView::Object(views),
                        *self == Json::Object(*entries),
                        views.len() == entries@.len(),
                        forall|k: int|
                            0 <= k < views.len() ==> #[trigger] views[k] == (
                                entries@[k].0@,
                                json_view(entries@[k].1),
                            ),
                        forall|j: int| 0 <= j < i ==> (#[trigger] views[j]).0 != key@,
                    decreases entries@.len() - i,
                {
                    assert(views[i as int].0 == entries@[i as int].0@);
                    if same_text(entries[i].0.as_str(), key) {
                        proof {
                            assert(entry_at(views, key@, i as int));
                            let k = key_index(views, key@);
                            assert(entry_at(views, key@, k));
                            assert(k == i);
                            assert(decreases_to!(entries@ => entries@[i as int]));
                        }
                        return Some(&entries[i].1);
                    }
                    i = i + 1;
                }
                None
            },
            _ => None,
        }
    }
}

/// Python truthiness for the JSON values the template branches on.
pub fn truthy(v: &Json) -> (r: bool)
    ensures
        r == is_truthy(v@),
{
    match v {
        Json::Null => false,
        Json::Bool(b) => *b,
        Json::Number(n) => match n {
            Number::PosInt(u) => *u != 0,
            Number::NegInt(i) => *i != 0,
            Number::Float(t) => !same_text(t.as_str(), "0.0") && !same_text(t.as_str(), "-0.0"),
        },
        Json::Text(s) => {
            proof {
                reveal_strlit("");
                assert(s@.len() == 0 ==> s@ =~= ""@);
            }
            !same_text(s.as_str(), "")
        },
        Json::Array(items) => {
            proof {
                lemma_json_views(items@);
            }
            items.len() > 0
        },
        Json::Object(entries) => {
            proof {
                lemma_entry_views(entries@);
            }
            entries.len() > 0
        },
    }
}

/// Appends a number as it prints.
pub fn push_number(n: &Number, out: &mut String)
    ensures
        final(out)@ == old(out)@ + number_text(n@),
{
    match n {
        Number::PosInt(u) => push_decimal(out, *u),
        Number::NegInt(i) => push_signed(out, *i),
        Number::Float(t) => out.append(t.as_str()),
    }
}

/// What `str::to_lowercase` makes of a text.
pub uninterp spec fn lowercase(s: Seq<char>) -> Seq<char>;

/// What `str::to_uppercase` makes of a text.
pub uninterp spec fn uppercase(s: Seq<char>) -> Seq<char>;

/// `str::to_lowercase`: Unicode lower case of the whole text, the same for
/// the same text.
pub assume_specification[ str::to_lowercase ](s: &str) -> (r: String)
    ensures
        r@ == lowercase(s@),
;

/// `str::to_uppercase`: Unicode upper case of the whole text, the same for
/// the same text.
pub assume_specification[ str::to_uppercase ](s: &str) -> (r: String)
    ensures
        r@ == uppercase(s@),
;

/// The place of `key` in a list of keys in order: behind every key that comes
/// no later, ignoring case.
pub open spec fn dict_place(keys: Seq<Seq<char>>, order: Seq<int>, key: Seq<char>) -> nat
    decreases order.len(),
{
    if order.len() > 0 && text_before(lowercase(key), lowercase(keys[order.last()])) {
        dict_place(keys, order.drop_last(), key)
    } else {
        order.len()
    }
}

/// The order of the first `n` keys: by lower case, equal keys as they stand.
pub open spec fn dict_order(keys: Seq<Seq<char>>, n: nat) -> Seq<int>
    decreases n,
{
    if n == 0 {
        Seq::empty()
    } else {
        let order = dict_order(keys, (n - 1) as nat);
        order.insert(dict_place(keys, order, keys[n - 1]) as int, n - 1)
    }
}

pub proof fn lemma_dict_place(keys: Seq<Seq<char>>, order: Seq<int>, key: Seq<char>)
    ensures
        dict_place(keys, order, key) <= order.len(),
    decreases order.len(),
{
    if order.len() > 0 {
        lemma_dict_place(keys, order.drop_last(), key);
    }
}

/// Every key is listed once.
pub proof fn lemma_dict_order_lists(keys: Seq<Seq<char>>, n: nat)
    requires
        n <= keys.len(),
    ensures
        dict_order(keys, n).len() == n,
        forall|k: int| 0 <= k < n ==> 0 <= #[trigger] dict_order(keys, n)[k] < n,
        dict_order(keys, n).no_duplicates(),
        forall|j: int| 0 <= j < n ==> #[trigger] dict_order(keys, n).contains(j),
    decreases n,
{
    if n > 0 {
        let order = dict_order(keys, (n - 1) as nat);
        lemma_dict_order_lists(keys, (n - 1) as nat);
        lemma_dict_place(keys, order, keys[n - 1]);
        let at = dict_place(keys, order, keys[n - 1]) as int;
        let next = dict_order(keys, n);
        assert forall|j: int| 0 <= j < n implies #[trigger] next.contains(j) by {
            if j == n - 1 {
                assert(next[at] == j);
            } else {
                assert(order.contains(j));
                let k = order.index_of(j);
                assert(next[if k < at { k } else { k + 1 }] == j);
            }
        }
    }
}

/// The keys of a list of entries.
pub open spec fn entry_keys(entries: Seq<(String, Json)>) -> Seq<Seq<char>> {
    entries.map_values(|e: (String, Json)| e.0@)
}

/// The indices of `entries` sorted by key, ignoring case and stable.
pub fn dictsort(entries: &Vec<(String, Json)>) -> (order: Vec<usize>)
    ensures
        order@.map_values(|i: usize| i as int) == dict_order(entry_keys(entries@), entries@.len()),
        order@.len() == entries@.len(),
        forall|k: int| 0 <= k < order@.len() ==> #[trigger] order@[k] < entries@.len(),
{
    let ghost keys = entry_keys(entries@);
    let mut order: Vec<usize> = Vec::new();
    let mut lowered: Vec<Vec<char>> = Vec::new();
    assert(order@.map_values(|i: usize| i as int) =~= dict_order(keys, 0));
    let mut n: usize = 0;
    while n < entries.len()
        invariant
            n <= entries@.len(),
            keys == entry_keys(entries@),
            lowered@.len() == n,
            forall|k: int| 0 <= k < n ==> (#[trigger] lowered@[k])@ == lowercase(keys[k]),
            order@.len() == n,
            order@.map_values(|i: usize| i as int) == dict_order(keys, n as nat),
            forall|k: int| 0 <= k < n ==> #[trigger] order@[k] < n,
        decreases entries@.len() - n,
    {
        let low = chars_of(entries[n].0.as_str().to_lowercase().as_str());
        assert(low@ == lowercase(keys[n as int]));
        let ghost placed = order@.map_values(|i: usize| i as int);
        let mut at: usize = n;
        assert(placed.take(n as int) =~= placed);
        while at > 0 && before(&low, &lowered[order[at - 1]])
            invariant
                at <= n,
                keys == entry_keys(entries@),
                n < keys.len(),
                lowered@.len() == n,
                forall|k: int| 0 <= k < n ==> (#[trigger] lowered@[k])@ == lowercase(keys[k]),
                order@.len() == n,
                forall|k: int| 0 <= k < n ==> #[trigger] order@[k] < n,
                placed == order@.map_values(|i: usize| i as int),
                low@ == lowercase(keys[n as int]),
                dict_place(keys, placed.take(at as int), keys[n as int]) == dict_place(
                    keys,
                    placed,
                    keys[n as int],
                ),
            decreases at,
        {
            assert(placed.take(at as int).drop_last() =~= placed.take(at - 1));
            at = at - 1;
        }
        assert(placed.take(at as int).len() == at);
        order.insert(at, n);
        lowered.push(low);
        assert(order@.map_values(|i: usize| i as int) =~= placed.insert(at as int, n as int));
        n = n + 1;
    }
    order
}

/// Key `a` stands before key `b` in sorted order: its lower case comes first,
/// or both are equal and it stood first.
pub open spec fn dict_ordered(keys: Seq<Seq<char>>, a: int, b: int) -> bool {
    let (la, lb) = (lowercase(keys[a]), lowercase(keys[b]));
    text_before(la, lb) || la == lb && a < b
}

proof fn lemma_dict_place_is(keys: Seq<Seq<char>>, order: Seq<int>, key: Seq<char>)
    ensures
        ({
            let at = dict_place(keys, order, key);
            &&& at <= order.len()
            &&& at > 0 ==> !text_before(lowercase(key), lowercase(keys[order[at - 1]]))
            &&& forall|k: int|
                at <= k < order.len() ==> text_before(
                    lowercase(key),
                    lowercase(keys[#[trigger] order[k]]),
                )
        }),
    decreases order.len(),
{
    if order.len() > 0 && text_before(lowercase(key), lowercase(keys[order.last()])) {
        lemma_dict_place_is(keys, order.drop_last(), key);
        assert forall|k: int|
            dict_place(keys, order, key) <= k < order.len() implies text_before(
            lowercase(key),
            lowercase(keys[#[trigger] order[k]]),
        ) by {
            if k < order.len() - 1 {
                assert(order.drop_last()[k] == order[k]);
            }
        }
    }
}

/// Sorting ignores case and keeps the order of keys that differ in nothing
/// else.
pub proof fn lemma_dict_order_sorts(keys: Seq<Seq<char>>, n: nat)
    requires
        n <= keys.len(),
    ensures
        forall|k: int, l: int|
            0 <= k < l < n ==> dict_ordered(
                keys,
                #[trigger] dict_order(keys, n)[k],
                #[trigger] dict_order(keys, n)[l],
            ),
    decreases n,
{
    if n > 0 {
        let old_order = dict_order(keys, (n - 1) as nat);
        let key = keys[n - 1];
        lemma_dict_order_sorts(keys, (n - 1) as nat);
        lemma_dict_order_lists(keys, (n - 1) as nat);
        lemma_dict_place_is(keys, old_order, key);
        let at = dict_place(keys, old_order, key) as int;
        let order = dict_order(keys, n);
        assert forall|k: int, l: int| 0 <= k < l < n implies dict_ordered(
            keys,
            #[trigger] order[k],
            #[trigger] order[l],
        ) by {
            let kk = if k < at { k } else { k - 1 };
            let ll = if l < at { l } else { l - 1 };
            if k != at && l != at {
                assert(dict_ordered(keys, old_order[kk], old_order[ll]));
            } else if l == at {
                let last = old_order[at - 1];
                let e = old_order[k];
                assert(order[k] == e);
                if k < at - 1 {
                    assert(dict_ordered(keys, e, last));
                }
                let (lk, le) = (lowercase(key), lowercase(keys[e]));
                let ll = lowercase(keys[last]);
                lemma_text_order(lk, ll, le);
                lemma_text_order(le, lk, le);
                lemma_text_order(le, ll, lk);
            } else {
                assert(order[l] == old_order[l - 1]);
            }
        }
    }
}

/// What `serde_json` prints for the finite float that a word spells; nothing
/// where the word spells none.
pub uninterp spec fn float_text(word: Seq<char>) -> Option<Seq<char>>;

/// The characters that print a float.
pub open spec fn float_char(c: char) -> bool {
    '0' <= c <= '9' || c == '+' || c == '-' || c == '.' || c == 'e'
}

/// A float as it prints: a point or an exponent tells it from an integer, and
/// it reads back as itself.
pub open spec fn float_word(t: Seq<char>) -> bool {
    &&& forall|i: int| 0 <= i < t.len() ==> float_char(#[trigger] t[i])
    &&& t.contains('.') || t.contains('e')
    &&& float_text(t) == Some(t)
}

/// `serde_json::Number::from_f64` on the float a word spells, printed: the
/// same word always gives the same text, and none where it spells no float or
/// one that is not finite.
///
/// The text is the shortest decimal that is rounded to that float, with a
/// point or an exponent in it; reading it gives the same float, and so the
/// same text.
#[verifier::external_body]
pub(crate) fn finite_float(word: &str) -> (r: Option<String>)
    ensures
        match r {
            Some(t) => float_text(word@) == Some(t@) && float_word(t@),
            None => float_text(word@) is None,
        },
{
    serde_json::Number::from_f64(word.parse().ok()?).map(|n| n.to_string())
}

impl Number {
    /// The float that a word spells, where it is finite.
    pub fn float(word: &str) -> (r: Option<Number>)
        ensures
            match r {
                Some(n) => n@ matches NumberView::Float(t) && float_text(word@) == Some(t)
                    && float_word(t),
                None => float_text(word@) is None,
            },
    {
        match finite_float(word) {
            Some(t) => Some(Number::Float(t)),
            None => None,
        }
    }
}

/// Every float in a value is as it prints.
pub open spec fn floats_print(v: JsonView) -> bool
    decreases v,
{
    match v {
        JsonView::Number(NumberView::Float(t)) => float_word(t),
        JsonView::Array(items) => items_print(items),
        JsonView::Object(entries) => entries_print(entries),
        _ => true,
    }
}

pub open spec fn items_print(items: Seq<JsonView>) -> bool
    decreases items,
{
    if items.len() == 0 {
        true
    } else {
        items_print(items.subrange(0, items.len() - 1)) && floats_print(items[items.len() - 1])
    }
}

pub open spec fn entries_print(entries: Seq<(Seq<char>, JsonView)>) -> bool
    decreases entries,
{
    if entries.len() == 0 {
        true
    } else {
        let last = entries[entries.len() - 1];
        entries_print(entries.subrange(0, entries.len() - 1)) && floats_print(last.1)
    }
}

proof fn lemma_entries_print(entries: Seq<(Seq<char>, JsonView)>)
    ensures
        entries_print(entries) <==> forall|i: int|
            0 <= i < entries.len() ==> floats_print((#[trigger] entries[i]).1),
    decreases entries.len(),
{
    if entries.len() > 0 {
        let head = entries.subrange(0, entries.len() - 1);
        lemma_entries_print(head);
        assert forall|i: int| 0 <= i < head.len() implies #[trigger] head[i] == entries[i] by {}
        if entries_print(entries) {
            assert forall|i: int| 0 <= i < entries.len() implies floats_print(
                (#[trigger] entries[i]).1,
            ) by {
                if i < head.len() {
                    assert(floats_print(head[i].1));
                }
            }
        }
        if forall|i: int| 0 <= i < entries.len() ==> floats_print((#[trigger] entries[i]).1) {
            assert forall|i: int| 0 <= i < head.len() implies floats_print(
                (#[trigger] head[i]).1,
            ) by {
                assert(floats_print(entries[i].1));
            }
        }
    }
}

/// Where `key` belongs among entries sorted by key: behind every smaller key.
pub open spec fn entry_place(entries: Seq<(Seq<char>, JsonView)>, key: Seq<char>) -> nat
    decreases entries.len(),
{
    if entries.len() > 0 && !text_before(entries.last().0, key) {
        entry_place(entries.drop_last(), key)
    } else {
        entries.len()
    }
}

/// Sorted entries with the value of `key` set: the new value takes the place
/// of an old one.
pub open spec fn entry_set(entries: Seq<(Seq<char>, JsonView)>, key: Seq<char>, v: JsonView) -> Seq<
    (Seq<char>, JsonView),
> {
    let at = entry_place(entries, key) as int;
    if at < entries.len() && entries[at].0 == key {
        entries.update(at, (key, v))
    } else {
        entries.insert(at, (key, v))
    }
}

/// Keys in order, each once.
pub open spec fn keys_sorted(entries: Seq<(Seq<char>, JsonView)>) -> bool {
    forall|i: int, j: int|
        0 <= i < j < entries.len() ==> text_before(
            (#[trigger] entries[i]).0,
            (#[trigger] entries[j]).0,
        )
}

proof fn lemma_entry_place(entries: Seq<(Seq<char>, JsonView)>, key: Seq<char>)
    ensures
        ({
            let at = entry_place(entries, key);
            &&& at <= entries.len()
            &&& at > 0 ==> text_before(entries[at - 1].0, key)
            &&& forall|k: int|
                at <= k < entries.len() ==> !text_before((#[trigger] entries[k]).0, key)
        }),
    decreases entries.len(),
{
    if entries.len() > 0 && !text_before(entries.last().0, key) {
        lemma_entry_place(entries.drop_last(), key);
        assert forall|k: int|
            entry_place(entries, key) <= k < entries.len() implies !text_before(
            (#[trigger] entries[k]).0,
            key,
        ) by {
            if k < entries.len() - 1 {
                assert(entries.drop_last()[k] == entries[k]);
            }
        }
    }
}

/// Setting a key keeps the entries sorted, gives that key its value, and
/// leaves every other key its own.
pub proof fn lemma_entry_set(
    entries: Seq<(Seq<char>, JsonView)>,
    key: Seq<char>,
    v: JsonView,
    other: Seq<char>,
)
    requires
        keys_sorted(entries),
        other != key,
    ensures
        keys_sorted(entry_set(entries, key, v)),
        member(JsonView::Object(entry_set(entries, key, v)), key) == Some(v),
        member(JsonView::Object(entry_set(entries, key, v)), other) == member(
            JsonView::Object(entries),
            other,
        ),
{
    let at = entry_place(entries, key) as int;
    let next = entry_set(entries, key, v);
    lemma_entry_place(entries, key);
    let replaced = at < entries.len() && entries[at].0 == key;
    assert forall|k: int| 0 <= k < at implies text_before((#[trigger] entries[k]).0, key) by {
        if k < at - 1 {
            assert(text_before(entries[k].0, entries[at - 1].0));
            lemma_text_order(entries[at - 1].0, entries[k].0, key);
        }
    }
    assert forall|k: int|
        at <= k < entries.len() && !(replaced && k == at) implies text_before(
        key,
        (#[trigger] entries[k]).0,
    ) by {
        lemma_text_order(entries[k].0, key, key);
        if k > at {
            assert(text_before(entries[at].0, entries[k].0));
            lemma_text_order(entries[at].0, entries[k].0, key);
            lemma_text_order(entries[at].0, key, key);
        }
    }
    let shift: int = if replaced { 0 } else { 1 };
    assert forall|i: int, j: int| 0 <= i < j < next.len() implies text_before(
        (#[trigger] next[i]).0,
        (#[trigger] next[j]).0,
    ) by {
        let ii = if i <= at { i } else { i - shift };
        let jj = if j <= at { j } else { j - shift };
        if i < at {
            assert(next[i] == entries[i]);
        }
        if j > at {
            assert(next[j] == entries[jj]);
        }
        if i > at {
            assert(next[i] == entries[ii]);
        }
        if j < at {
            assert(next[j] == entries[j]);
        }
    }
    assert(next[at] == (key, v));
    assert forall|j: int| 0 <= j < at implies (#[trigger] next[j]).0 != key by {
        assert(next[j] == entries[j]);
        lemma_text_order(entries[j].0, key, key);
    }
    assert(entry_at(next, key, at));
    let k = key_index(next, key);
    assert(entry_at(next, key, k));
    assert(k == at) by {
        if k < at {
            assert(next[k].0 != key);
        } else if at < k {
            assert(next[at].0 != key);
        }
    }
    lemma_other_member(entries, next, at, shift, other);
}

/// Entries that agree but for the one at `at` have the same members but for
/// that one's key.
proof fn lemma_other_member(
    entries: Seq<(Seq<char>, JsonView)>,
    next: Seq<(Seq<char>, JsonView)>,
    at: int,
    shift: int,
    other: Seq<char>,
)
    requires
        0 <= at < next.len(),
        shift == 0 || shift == 1,
        next.len() == entries.len() + shift,
        next[at].0 != other,
        shift == 0 ==> entries[at].0 != other,
        forall|i: int| 0 <= i < at ==> #[trigger] next[i] == entries[i],
        forall|i: int| at < i < next.len() ==> #[trigger] next[i] == entries[i - shift],
    ensures
        member(JsonView::Object(next), other) == member(JsonView::Object(entries), other),
{
    if has_key(next, other) {
        let k = key_index(next, other);
        assert(entry_at(next, other, k));
        let kk = if k < at { k } else { k - shift };
        assert(entries[kk] == next[k]);
        assert forall|j: int| 0 <= j < kk implies (#[trigger] entries[j]).0 != other by {
            if j < at {
                assert(next[j] == entries[j]);
            } else if shift == 0 {
                if j > at {
                    assert(next[j] == entries[j]);
                }
            } else {
                assert(next[j + 1] == entries[j]);
            }
        }
        assert(entry_at(entries, other, kk));
        let i = key_index(entries, other);
        assert(entry_at(entries, other, i));
        assert(i == kk) by {
            if i < kk {
                assert(entries[i].0 != other);
            } else if kk < i {
                assert(entries[kk].0 != other);
            }
        }
    } else if has_key(entries, other) {
        let k = key_index(entries, other);
        assert(entry_at(entries, other, k));
        let kk = if k < at { k } else { k + shift };
        assert(next[kk] == entries[k]);
        assert forall|j: int| 0 <= j < kk implies (#[trigger] next[j]).0 != other by {
            if j < at {
                assert(next[j] == entries[j]);
            } else if j > at {
                assert(next[j] == entries[j - shift]);
            }
        }
        assert(entry_at(next, other, kk));
    }
}

/// Setting an entry keeps floats as they print.
pub proof fn lemma_set_floats(entries: Seq<(Seq<char>, JsonView)>, key: Seq<char>, v: JsonView)
    requires
        floats_print(JsonView::Object(entries)),
        floats_print(v),
    ensures
        floats_print(JsonView::Object(entry_set(entries, key, v))),
{
    let at = entry_place(entries, key) as int;
    lemma_place_bound(entries, key);
    let next = entry_set(entries, key, v);
    lemma_entries_print(entries);
    lemma_entries_print(next);
    assert forall|i: int| 0 <= i < next.len() implies floats_print((#[trigger] next[i]).1) by {
        if i != at {
            let j = if i < at || next.len() == entries.len() {
                i
            } else {
                i - 1
            };
            assert(next[i] == entries[j]);
            assert(floats_print(entries[j].1));
        }
    }
}

proof fn lemma_place_bound(entries: Seq<(Seq<char>, JsonView)>, key: Seq<char>)
    ensures
        entry_place(entries, key) <= entries.len(),
    decreases entries.len(),
{
    if entries.len() > 0 && !text_before(entries.last().0, key) {
        lemma_place_bound(entries.drop_last(), key);
    }
}

/// Sets the value of `key` among entries sorted by key.
pub fn set_entry(entries: &mut Vec<(String, Json)>, key: String, value: Json)
    ensures
        entry_views(final(entries)@) == entry_set(entry_views(old(entries)@), key@, value@),
{
    let ghost before_set = entries@;
    let ghost views = entry_views(entries@);
    proof {
        lemma_entry_views(entries@);
    }
    let wanted = chars_of(key.as_str());
    let mut at: usize = entries.len();
    assert(views.take(at as int) =~= views);
    while at > 0 && !before(&chars_of(entries[at - 1].0.as_str()), &wanted)
        invariant
            at <= entries@.len(),
            wanted@ == key@,
            views.len() == entries@.len(),
            forall|i: int|
                0 <= i < entries@.len() ==> #[trigger] views[i] == (
                    entries@[i].0@,
                    json_view(entries@[i].1),
                ),
            entry_place(views.take(at as int), key@) == entry_place(views, key@),
        decreases at,
    {
        assert(views[at - 1].0 == entries@[at - 1].0@);
        assert(views.take(at as int).drop_last() =~= views.take(at - 1));
        at = at - 1;
    }
    proof {
        if at > 0 {
            assert(views[at - 1].0 == entries@[at - 1].0@);
            assert(views.take(at as int).last() == views[at - 1]);
        }
        assert(entry_place(views, key@) == at);
        if at < entries@.len() {
            assert(views[at as int].0 == entries@[at as int].0@);
        }
    }
    if at < entries.len() && same_text(entries[at].0.as_str(), key.as_str()) {
        entries.set(at, (key, value));
    } else {
        entries.insert(at, (key, value));
    }
    proof {
        lemma_entry_views(entries@);
        let want = entry_set(views, key@, value@);
        assert forall|i: int| 0 <= i < entries@.len() implies entry_views(entries@)[i]
            == want[i] by {
            if i < at {
                assert(entries@[i] == before_set[i]);
                assert(views[i] == (before_set[i].0@, json_view(before_set[i].1)));
            } else if i > at {
                if entries@.len() == before_set.len() {
                    assert(entries@[i] == before_set[i]);
                    assert(views[i] == (before_set[i].0@, json_view(before_set[i].1)));
                } else {
                    assert(entries@[i] == before_set[i - 1]);
                    assert(views[i - 1] == (before_set[i - 1].0@, json_view(before_set[i - 1].1)));
                }
            }
        }
        assert(entry_views(entries@) =~= want);
    }
}

/// What is false: nothing, `false`, zero, and what is empty.
pub proof fn lemma_falsehoods(v: JsonView)
    ensures
        !is_truthy(v) <==> {
            ||| v == JsonView::Null
            ||| v == JsonView::Bool(false)
            ||| v == JsonView::Number(NumberView::PosInt(0))
            ||| v == JsonView::Number(NumberView::NegInt(0))
            ||| v == JsonView::Number(NumberView::Float("0.0"@))
            ||| v == JsonView::Number(NumberView::Float("-0.0"@))
            ||| v == JsonView::Text(Seq::empty())
            ||| v == JsonView::Array(Seq::empty())
            ||| v == JsonView::Object(Seq::empty())
        },
{
    match v {
        JsonView::Text(s) => {
            assert(s.len() == 0 ==> s =~= Seq::<char>::empty());
        },
        JsonView::Array(items) => {
            assert(items.len() == 0 ==> items =~= Seq::<JsonView>::empty());
        },
        JsonView::Object(entries) => {
            assert(entries.len() == 0 ==> entries =~= Seq::<(Seq<char>, JsonView)>::empty());
        },
        _ => {},
    }
}

/// The member of a key is the value of the first entry with it, wherever that
/// stands.
pub proof fn lemma_member_is_first(
    a: Seq<(Seq<char>, JsonView)>,
    key: Seq<char>,
    v: JsonView,
    b: Seq<(Seq<char>, JsonView)>,
)
    requires
        forall|i: int| 0 <= i < a.len() ==> (#[trigger] a[i]).0 != key,
    ensures
        member(JsonView::Object(a), key) is None,
        member(JsonView::Object(a.push((key, v)) + b), key) == Some(v),
{
    let all = a.push((key, v)) + b;
    assert(all[a.len() as int] == (key, v));
    assert forall|j: int| 0 <= j < a.len() implies (#[trigger] all[j]).0 != key by {
        assert(all[j] == a[j]);
    }
    assert(entry_at(all, key, a.len() as int));
    let i = key_index(all, key);
    assert(entry_at(all, key, i));
    assert(i == a.len());
}

} // verus!
