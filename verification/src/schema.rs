//! Tool declarations: JSON-schema-like parameters in the template's own
//! serialization.

use vstd::prelude::*;
use vstd::string::*;

use crate::argument::{
    argument_text, by_key, every, format_argument, in_order, joined, keys_of, lemma_entries,
    lemma_join_push, lemma_listing, precedes, push_quoted, push_quoted_list, quoted, quoted_items,
    sorted_listing, upper, upper_text,
};
use crate::json::{
    dict_order, dictsort, entry_views, has_key, is_truthy, json_view, json_views, key_index,
    lemma_entry_views, lemma_json_views, member, truthy, uppercase, Json, JsonView,
};
use crate::text::same_text;

verus! {

/// One tool declaration.
#[derive(Debug, Clone)]
pub struct ToolDecl {
    pub name: String,
    pub description: String,
    /// JSON-schema-ish parameters object; [`Json::Null`] when absent.
    pub parameters: Json,
    /// Optional response declaration.
    pub response: Option<Json>,
}

/// The parts that are there.
pub open spec fn present(parts: Seq<Option<Seq<char>>>) -> Seq<Seq<char>>
    decreases parts.len(),
{
    if parts.len() == 0 {
        Seq::empty()
    } else {
        match parts.last() {
            Some(t) => present(parts.drop_last()).push(t),
            None => present(parts.drop_last()),
        }
    }
}

/// Keys of a schema node that are no properties of their own.
pub open spec fn standard_key(key: Seq<char>) -> bool {
    ||| key == "description"@
    ||| key == "type"@
    ||| key == "properties"@
    ||| key == "required"@
    ||| key == "nullable"@
}

/// The type a schema node names, in upper case.
pub open spec fn type_text(v: JsonView) -> Seq<char> {
    match member(v, "type"@) {
        Some(t) => upper_text(t),
        None => ""@,
    }
}

/// The description of a schema node.
pub open spec fn description_part(v: JsonView) -> Option<Seq<char>> {
    match member(v, "description"@) {
        Some(JsonView::Text(d)) => if d.len() > 0 {
            Some("description:"@ + quoted(d))
        } else {
            None
        },
        _ => None,
    }
}

/// The values a string may have.
pub open spec fn enum_part(v: JsonView) -> Option<Seq<char>> {
    match member(v, "enum"@) {
        Some(e) => if is_truthy(e) {
            Some("enum:"@ + argument_text(e, true))
        } else {
            None
        },
        None => None,
    }
}

/// Whether the node may be null.
pub open spec fn nullable_part(v: JsonView) -> Option<Seq<char>> {
    match member(v, "nullable"@) {
        Some(n) => if is_truthy(n) {
            Some("nullable:true"@)
        } else {
            None
        },
        None => None,
    }
}

/// The required properties of an object node.
pub open spec fn required_part(v: JsonView) -> Option<Seq<char>> {
    match member(v, "required"@) {
        Some(JsonView::Array(names)) => if names.len() > 0 {
            Some("required:["@ + quoted_items(names) + "]"@)
        } else {
            None
        },
        _ => None,
    }
}

/// One level of a property map: each property as `key:{schema}`, by sorted
/// key; with `filter_keys` without the standard keys.
pub open spec fn parameters_text(props: Seq<(Seq<char>, JsonView)>, filter_keys: bool) -> Seq<char>
    decreases props, 1nat,
{
    joined(present(by_key(props, parameter_texts(props, filter_keys))))
}

/// Each property of a map, where it is listed.
pub open spec fn parameter_texts(props: Seq<(Seq<char>, JsonView)>, filter_keys: bool) -> Seq<
    Option<Seq<char>>,
>
    decreases props, 0nat,
{
    if props.len() == 0 {
        Seq::empty()
    } else {
        let last = props[props.len() - 1];
        parameter_texts(props.subrange(0, props.len() - 1), filter_keys).push(
            if filter_keys && standard_key(last.0) {
                None
            } else {
                Some(last.0 + ":{"@ + schema_text(last.1) + "}"@)
            },
        )
    }
}

/// The item schema of an array node.
pub open spec fn items_kind(v: JsonView) -> Option<Seq<char>>
    decreases v, 1nat,
{
    match v {
        JsonView::Object(entries) => if has_key(entries, "items"@) {
            match entries[key_index(entries, "items"@)].1 {
                JsonView::Object(items) => if items.len() > 0 {
                    Some("items:{"@ + items_text(items) + "}"@)
                } else {
                    None
                },
                _ => None,
            }
        } else {
            None
        },
        _ => None,
    }
}

/// The properties of an object node: those it lists, or else its own members
/// but for the standard keys.
pub open spec fn properties_kind(v: JsonView) -> Option<Seq<char>>
    decreases v, 1nat,
{
    match v {
        JsonView::Object(entries) => Some(
            "properties:{"@ + (if has_key(entries, "properties"@) {
                match entries[key_index(entries, "properties"@)].1 {
                    JsonView::Object(map) => parameters_text(map, false),
                    _ => parameters_text(entries, true),
                }
            } else {
                parameters_text(entries, true)
            }) + "}"@,
        ),
        _ => None,
    }
}

/// A schema node: description, enum or items, nullable, properties, required
/// and type, as far as they are there.
pub open spec fn schema_text(v: JsonView) -> Seq<char>
    decreases v, 3nat,
{
    joined(
        present(
            seq![
                description_part(v),
                kind_part(v),
                nullable_part(v),
                object_part(v, properties_kind(v)),
                object_part(v, required_part(v)),
                Some("type:"@ + quoted(type_text(v))),
            ],
        ),
    )
}

/// The values of a string node, or the item schema of an array node.
pub open spec fn kind_part(v: JsonView) -> Option<Seq<char>>
    decreases v, 2nat,
{
    if type_text(v) == "STRING"@ {
        enum_part(v)
    } else if type_text(v) == "ARRAY"@ {
        items_kind(v)
    } else {
        None
    }
}

/// A part that only object nodes have.
pub open spec fn object_part(v: JsonView, part: Option<Seq<char>>) -> Option<Seq<char>> {
    if type_text(v) == "OBJECT"@ {
        part
    } else {
        None
    }
}

/// The schema of an array's items, by sorted key.
pub open spec fn items_text(items: Seq<(Seq<char>, JsonView)>) -> Seq<char>
    decreases items, 1nat,
{
    joined(present(by_key(items, items_parts(items))))
}

/// Each entry of an array's item schema, where it is not null.
pub open spec fn items_parts(items: Seq<(Seq<char>, JsonView)>) -> Seq<Option<Seq<char>>>
    decreases items, 0nat,
{
    if items.len() == 0 {
        Seq::empty()
    } else {
        let last = items[items.len() - 1];
        items_parts(items.subrange(0, items.len() - 1)).push(items_part(last.0, last.1))
    }
}

/// The type of an array's items: strings in upper case.
pub open spec fn item_type(v: JsonView) -> Seq<char> {
    match v {
        JsonView::Text(s) => quoted(upper_text(v)),
        JsonView::Array(types) => argument_text(
            JsonView::Array(types.map_values(|t: JsonView| JsonView::Text(upper_text(t)))),
            true,
        ),
        _ => argument_text(v, true),
    }
}

/// One entry of an array's item schema.
pub open spec fn items_part(key: Seq<char>, v: JsonView) -> Option<Seq<char>>
    decreases v, 0nat,
{
    if v is Null {
        None
    } else if key == "properties"@ {
        Some(
            "properties:{"@ + (match v {
                JsonView::Object(map) => parameters_text(map, false),
                _ => ""@,
            }) + "}"@,
        )
    } else if key == "required"@ {
        Some(
            "required:["@ + (match v {
                JsonView::Array(names) => quoted_items(names),
                _ => ""@,
            }) + "]"@,
        )
    } else if key == "type"@ {
        Some("type:"@ + item_type(v))
    } else {
        Some(key + ":"@ + argument_text(v, true))
    }
}

proof fn lemma_present_push(parts: Seq<Option<Seq<char>>>, part: Option<Seq<char>>)
    ensures
        present(parts.push(part)) == match part {
            Some(t) => present(parts).push(t),
            None => present(parts),
        },
{
    assert(parts.push(part).drop_last() =~= parts);
}

/// Writes the comma in front of every part but the first.
fn comma(out: &mut String, add_comma: &mut bool)
    ensures
        *final(add_comma),
        final(out)@ == old(out)@ + (if *old(add_comma) {
            ","@
        } else {
            Seq::empty()
        }),
{
    let ghost start = out@;
    if *add_comma {
        out.append(",");
    } else {
        *add_comma = true;
        assert(start + Seq::<char>::empty() =~= start);
    }
}

/// Whether a key of a schema node is no property of its own.
fn is_standard(key: &str) -> (r: bool)
    ensures
        r == standard_key(key@),
{
    same_text(key, "description") || same_text(key, "type") || same_text(key, "properties")
        || same_text(key, "required") || same_text(key, "nullable")
}

proof fn lemma_parameter_texts(props: Seq<(Seq<char>, JsonView)>, filter_keys: bool)
    ensures
        parameter_texts(props, filter_keys).len() == props.len(),
        forall|i: int|
            0 <= i < props.len() ==> #[trigger] parameter_texts(props, filter_keys)[i] == (
            if filter_keys && standard_key(props[i].0) {
                None
            } else {
                Some(props[i].0 + ":{"@ + schema_text(props[i].1) + "}"@)
            }),
    decreases props.len(),
{
    if props.len() > 0 {
        let head = props.subrange(0, props.len() - 1);
        lemma_parameter_texts(head, filter_keys);
        assert forall|i: int| 0 <= i < props.len() implies #[trigger] parameter_texts(
            props,
            filter_keys,
        )[i] == (if filter_keys && standard_key(props[i].0) {
            None
        } else {
            Some(props[i].0 + ":{"@ + schema_text(props[i].1) + "}"@)
        }) by {
            if i < head.len() {
                assert(parameter_texts(props, filter_keys)[i] == parameter_texts(
                    head,
                    filter_keys,
                )[i]);
                assert(head[i] == props[i]);
            }
        }
    }
}

proof fn lemma_items_parts(items: Seq<(Seq<char>, JsonView)>)
    ensures
        items_parts(items).len() == items.len(),
        forall|i: int|
            0 <= i < items.len() ==> #[trigger] items_parts(items)[i] == items_part(
                items[i].0,
                items[i].1,
            ),
    decreases items.len(),
{
    if items.len() > 0 {
        let head = items.subrange(0, items.len() - 1);
        lemma_items_parts(head);
        assert forall|i: int| 0 <= i < items.len() implies #[trigger] items_parts(items)[i]
            == items_part(items[i].0, items[i].1) by {
            if i < head.len() {
                assert(items_parts(items)[i] == items_parts(head)[i]);
                assert(head[i] == items[i]);
            }
        }
    }
}

/// Appends one level of a property map.
fn format_parameters(props: &Vec<(String, Json)>, filter_keys: bool, out: &mut String)
    ensures
        final(out)@ == old(out)@ + parameters_text(entry_views(props@), filter_keys),
    decreases props, 1nat,
{
    let ghost start = out@;
    let ghost views = entry_views(props@);
    let ghost listed = parameter_texts(views, filter_keys);
    let ghost parts = by_key(views, listed);
    proof {
        lemma_entries(props@);
        lemma_parameter_texts(views, filter_keys);
    }
    let order = dictsort(props);
    let mut add_comma: bool = false;
    let mut i: usize = 0;
    assert(start + joined(present(parts.take(0))) =~= start);
    while i < order.len()
        invariant
            i <= order@.len(),
            order@.len() == props@.len(),
            views.len() == props@.len(),
            order@.map_values(|i: usize| i as int) == dict_order(keys_of(views), views.len()),
            forall|k: int| 0 <= k < order@.len() ==> #[trigger] order@[k] < props@.len(),
            forall|k: int|
                0 <= k < props@.len() ==> #[trigger] views[k] == (
                    props@[k].0@,
                    json_view(props@[k].1),
                ),
            listed.len() == props@.len(),
            forall|i: int|
                0 <= i < props@.len() ==> #[trigger] listed[i] == (if filter_keys && standard_key(
                    views[i].0,
                ) {
                    None
                } else {
                    Some(views[i].0 + ":{"@ + schema_text(views[i].1) + "}"@)
                }),
            parts == by_key(views, listed),
            parts.len() == order@.len(),
            add_comma == (present(parts.take(i as int)).len() > 0),
            out@ == start + joined(present(parts.take(i as int))),
        decreases order@.len() - i,
    {
        let e: usize = order[i];
        let ghost so_far = present(parts.take(i as int));
        proof {
            assert(decreases_to!(*props => props@));
            assert(decreases_to!(props@ => props@[e as int]));
            assert(decreases_to!(props@[e as int] => props@[e as int].1));
            assert(order@.map_values(|i: usize| i as int)[i as int] == e);
            assert(parts[i as int] == listed[e as int]);
            assert(views[e as int].0 == props@[e as int].0@);
            lemma_present_push(parts.take(i as int), parts[i as int]);
            assert(parts.take(i as int).push(parts[i as int]) =~= parts.take(i + 1));
        }
        let key = props[e].0.as_str();
        if filter_keys && is_standard(key) {
            i = i + 1;
            continue;
        }
        let ghost part = key@ + ":{"@ + schema_text(views[e as int].1) + "}"@;
        proof {
            lemma_join_push(so_far, part);
        }
        comma(out, &mut add_comma);
        out.append(key);
        out.append(":{");
        format_schema(&props[e].1, out);
        out.append("}");
        assert(out@ =~= start + joined(so_far.push(part)));
        i = i + 1;
    }
    assert(parts.take(i as int) =~= parts);
}

/// A part behind others: its comma, where `any` stands before it, and itself.
spec fn behind(any: bool, part: Option<Seq<char>>) -> Seq<char> {
    match part {
        Some(t) => (if any {
            ","@
        } else {
            Seq::empty()
        }) + t,
        None => Seq::empty(),
    }
}

proof fn lemma_behind(parts: Seq<Option<Seq<char>>>, part: Option<Seq<char>>)
    ensures
        joined(present(parts.push(part))) == joined(present(parts)) + behind(
            present(parts).len() > 0,
            part,
        ),
        present(parts.push(part)).len() > 0 <==> present(parts).len() > 0 || part is Some,
{
    lemma_present_push(parts, part);
    match part {
        Some(t) => {
            lemma_join_push(present(parts), t);
            if present(parts).len() > 0 {
                assert(joined(present(parts)) + ","@ + t =~= joined(present(parts)) + (","@ + t));
            } else {
                assert(joined(present(parts)) + (Seq::<char>::empty() + t) =~= t);
            }
        },
        None => {
            assert(joined(present(parts)) + Seq::<char>::empty() =~= joined(present(parts)));
        },
    }
}

/// Appends the description of a schema node.
fn format_description(value: &Json, add_comma: &mut bool, out: &mut String)
    ensures
        final(out)@ == old(out)@ + behind(*old(add_comma), description_part(value@)),
        *final(add_comma) == (*old(add_comma) || description_part(value@) is Some),
{
    let ghost start = out@;
    if let Some(Json::Text(desc)) = value.get("description") {
        proof {
            reveal_strlit("");
            assert(desc@.len() == 0 ==> desc@ =~= ""@);
        }
        if !same_text(desc.as_str(), "") {
            comma(out, add_comma);
            out.append("description:");
            push_quoted(out, desc.as_str());
        }
    }
    assert(out@ =~= start + behind(*old(add_comma), description_part(value@)));
}

/// Appends the values a string node may have.
fn format_enum(value: &Json, add_comma: &mut bool, out: &mut String)
    ensures
        final(out)@ == old(out)@ + behind(*old(add_comma), enum_part(value@)),
        *final(add_comma) == (*old(add_comma) || enum_part(value@) is Some),
{
    let ghost start = out@;
    if let Some(en) = value.get("enum") {
        if truthy(en) {
            comma(out, add_comma);
            out.append("enum:");
            format_argument(en, true, out);
        }
    }
    assert(out@ =~= start + behind(*old(add_comma), enum_part(value@)));
}

/// Appends whether a node may be null.
fn format_nullable(value: &Json, add_comma: &mut bool, out: &mut String)
    ensures
        final(out)@ == old(out)@ + behind(*old(add_comma), nullable_part(value@)),
        *final(add_comma) == (*old(add_comma) || nullable_part(value@) is Some),
{
    let ghost start = out@;
    if let Some(n) = value.get("nullable") {
        if truthy(n) {
            comma(out, add_comma);
            out.append("nullable:true");
        }
    }
    assert(out@ =~= start + behind(*old(add_comma), nullable_part(value@)));
}

/// Appends the required properties of an object node.
fn format_required(value: &Json, add_comma: &mut bool, out: &mut String)
    ensures
        final(out)@ == old(out)@ + behind(*old(add_comma), required_part(value@)),
        *final(add_comma) == (*old(add_comma) || required_part(value@) is Some),
{
    let ghost start = out@;
    if let Some(Json::Array(names)) = value.get("required") {
        proof {
            lemma_json_views(names@);
        }
        if names.len() > 0 {
            comma(out, add_comma);
            out.append("required:[");
            push_quoted_list(names, out);
            out.append("]");
        }
    }
    assert(out@ =~= start + behind(*old(add_comma), required_part(value@)));
}

/// Appends the item schema of an array node.
fn format_items_kind(value: &Json, add_comma: &mut bool, out: &mut String)
    ensures
        final(out)@ == old(out)@ + behind(*old(add_comma), items_kind(value@)),
        *final(add_comma) == (*old(add_comma) || items_kind(value@) is Some),
    decreases value, 1nat,
{
    let ghost start = out@;
    if let Some(Json::Object(items)) = value.get("items") {
        proof {
            lemma_entry_views(items@);
        }
        if items.len() > 0 {
            comma(out, add_comma);
            out.append("items:{");
            format_items(items, out);
            out.append("}");
        }
    }
    assert(out@ =~= start + behind(*old(add_comma), items_kind(value@)));
}

/// Appends the properties of an object node.
fn format_properties(value: &Json, add_comma: &mut bool, out: &mut String)
    ensures
        final(out)@ == old(out)@ + behind(*old(add_comma), properties_kind(value@)),
        *final(add_comma) == (*old(add_comma) || properties_kind(value@) is Some),
    decreases value, 1nat,
{
    let ghost start = out@;
    match value.get("properties") {
        Some(Json::Object(map)) => {
            comma(out, add_comma);
            out.append("properties:{");
            format_parameters(map, false, out);
            out.append("}");
        },
        _ => {
            // The schema node itself is treated as the property map,
            // skipping the standard keys.
            if let Json::Object(map) = value {
                assert(decreases_to!(*value => value->Object_0));
                comma(out, add_comma);
                out.append("properties:{");
                format_parameters(map, true, out);
                out.append("}");
            }
        },
    }
    assert(out@ =~= start + behind(*old(add_comma), properties_kind(value@)));
}

/// Six parts behind each other.
proof fn lemma_six_parts(
    d: Option<Seq<char>>,
    k: Option<Seq<char>>,
    n: Option<Seq<char>>,
    p: Option<Seq<char>>,
    r: Option<Seq<char>>,
    t: Option<Seq<char>>,
)
    ensures
        joined(present(seq![d, k, n, p, r, t])) == behind(false, d) + behind(d is Some, k) + behind(
            d is Some || k is Some,
            n,
        ) + behind(d is Some || k is Some || n is Some, p) + behind(
            d is Some || k is Some || n is Some || p is Some,
            r,
        ) + behind(d is Some || k is Some || n is Some || p is Some || r is Some, t),
{
    let p0 = Seq::<Option<Seq<char>>>::empty();
    lemma_behind(p0, d);
    lemma_behind(p0.push(d), k);
    lemma_behind(p0.push(d).push(k), n);
    lemma_behind(p0.push(d).push(k).push(n), p);
    lemma_behind(p0.push(d).push(k).push(n).push(p), r);
    lemma_behind(p0.push(d).push(k).push(n).push(p).push(r), t);
    assert(joined(present(p0)) + behind(false, d) =~= behind(false, d));
    assert(seq![d, k, n, p, r, t] =~= p0.push(d).push(k).push(n).push(p).push(r).push(t));
    assert(present(p0).len() == 0);
}

/// Six texts added one after the other.
proof fn lemma_sum(
    s: Seq<char>,
    a: Seq<char>,
    b: Seq<char>,
    c: Seq<char>,
    d: Seq<char>,
    e: Seq<char>,
    f: Seq<char>,
)
    ensures
        s + a + b + c + d + e + f == s + (a + b + c + d + e + f),
{
    assert(s + a + b + c + d + e + f =~= s + (a + b + c + d + e + f));
}

/// Appends the values of a string node, or the item schema of an array node.
fn format_kind(value: &Json, ty: &str, add_comma: &mut bool, out: &mut String)
    requires
        ty@ == type_text(value@),
    ensures
        final(out)@ == old(out)@ + behind(*old(add_comma), kind_part(value@)),
        *final(add_comma) == (*old(add_comma) || kind_part(value@) is Some),
    decreases value, 2nat,
{
    let ghost start = out@;
    if same_text(ty, "STRING") {
        format_enum(value, add_comma, out);
    } else if same_text(ty, "ARRAY") {
        format_items_kind(value, add_comma, out);
    } else {
        assert(start + Seq::<char>::empty() =~= start);
    }
}

/// Appends the parts that only object nodes have.
fn format_object(value: &Json, ty: &str, add_comma: &mut bool, out: &mut String)
    requires
        ty@ == type_text(value@),
    ensures
        ({
            let p = object_part(value@, properties_kind(value@));
            let r = object_part(value@, required_part(value@));
            &&& final(out)@ == old(out)@ + behind(*old(add_comma), p) + behind(
                *old(add_comma) || p is Some,
                r,
            )
            &&& *final(add_comma) == (*old(add_comma) || p is Some || r is Some)
        }),
    decreases value, 2nat,
{
    let ghost start = out@;
    if same_text(ty, "OBJECT") {
        format_properties(value, add_comma, out);
        format_required(value, add_comma, out);
    } else {
        assert(start + Seq::<char>::empty() + Seq::<char>::empty() =~= start);
    }
}

/// Appends a schema node.
fn format_schema(value: &Json, out: &mut String)
    ensures
        final(out)@ == old(out)@ + schema_text(value@),
    decreases value, 3nat,
{
    let ghost v = value@;
    let ghost start = out@;
    let ty: String = match value.get("type") {
        Some(t) => upper(t),
        None => "".to_owned(),
    };
    let ghost d = description_part(v);
    let ghost k = kind_part(v);
    let ghost n = nullable_part(v);
    let ghost p = object_part(v, properties_kind(v));
    let ghost r = object_part(v, required_part(v));
    let ghost t = Some("type:"@ + quoted(ty@));
    let mut add_comma: bool = false;
    format_description(value, &mut add_comma, out);
    format_kind(value, ty.as_str(), &mut add_comma, out);
    format_nullable(value, &mut add_comma, out);
    format_object(value, ty.as_str(), &mut add_comma, out);
    let ghost any = add_comma;
    let ghost body = out@;
    comma(out, &mut add_comma);
    out.append("type:");
    push_quoted(out, ty.as_str());
    proof {
        assert(out@ =~= body + behind(any, t));
        lemma_six_parts(d, k, n, p, r, t);
        lemma_sum(
            start,
            behind(false, d),
            behind(d is Some, k),
            behind(d is Some || k is Some, n),
            behind(d is Some || k is Some || n is Some, p),
            behind(d is Some || k is Some || n is Some || p is Some, r),
            behind(any, t),
        );
    }
}

/// Appends the schema of an array's items.
fn format_items(items: &Vec<(String, Json)>, out: &mut String)
    ensures
        final(out)@ == old(out)@ + items_text(entry_views(items@)),
    decreases items, 1nat,
{
    let ghost start = out@;
    let ghost views = entry_views(items@);
    let ghost listed = items_parts(views);
    let ghost parts = by_key(views, listed);
    proof {
        lemma_entries(items@);
        lemma_items_parts(views);
    }
    let order = dictsort(items);
    let mut add_comma: bool = false;
    let mut i: usize = 0;
    assert(start + joined(present(parts.take(0))) =~= start);
    while i < order.len()
        invariant
            i <= order@.len(),
            order@.len() == items@.len(),
            views.len() == items@.len(),
            order@.map_values(|i: usize| i as int) == dict_order(keys_of(views), views.len()),
            forall|k: int| 0 <= k < order@.len() ==> #[trigger] order@[k] < items@.len(),
            forall|k: int|
                0 <= k < items@.len() ==> #[trigger] views[k] == (
                    items@[k].0@,
                    json_view(items@[k].1),
                ),
            listed.len() == items@.len(),
            forall|i: int|
                0 <= i < items@.len() ==> #[trigger] listed[i] == items_part(
                    views[i].0,
                    views[i].1,
                ),
            parts == by_key(views, listed),
            parts.len() == order@.len(),
            add_comma == (present(parts.take(i as int)).len() > 0),
            out@ == start + joined(present(parts.take(i as int))),
        decreases order@.len() - i,
    {
        let e: usize = order[i];
        let ghost so_far = present(parts.take(i as int));
        proof {
            assert(decreases_to!(*items => items@));
            assert(decreases_to!(items@ => items@[e as int]));
            assert(decreases_to!(items@[e as int] => items@[e as int].1));
            assert(order@.map_values(|i: usize| i as int)[i as int] == e);
            assert(parts[i as int] == listed[e as int]);
            assert(views[e as int].0 == items@[e as int].0@);
            lemma_present_push(parts.take(i as int), parts[i as int]);
            assert(parts.take(i as int).push(parts[i as int]) =~= parts.take(i + 1));
        }
        if let Json::Null = &items[e].1 {
            i = i + 1;
            continue;
        }
        let ghost part = items_part(views[e as int].0, views[e as int].1)->0;
        proof {
            lemma_join_push(so_far, part);
        }
        comma(out, &mut add_comma);
        format_item(items[e].0.as_str(), &items[e].1, out);
        assert(out@ =~= start + joined(so_far.push(part)));
        i = i + 1;
    }
    assert(parts.take(i as int) =~= parts);
}

/// Appends one entry of an array's item schema.
fn format_item(key: &str, value: &Json, out: &mut String)
    requires
        !(value@ is Null),
    ensures
        final(out)@ == old(out)@ + items_part(key@, value@)->0,
    decreases value, 1nat,
{
    if same_text(key, "properties") {
        format_item_properties(value, out);
    } else if same_text(key, "required") {
        format_item_required(value, out);
    } else if same_text(key, "type") {
        format_item_type(value, out);
    } else {
        let ghost start = out@;
        out.append(key);
        out.append(":");
        format_argument(value, true, out);
        assert(out@ =~= start + (key@ + ":"@ + argument_text(value@, true)));
    }
}

/// Appends the properties of an array's items.
fn format_item_properties(value: &Json, out: &mut String)
    requires
        !(value@ is Null),
    ensures
        final(out)@ == old(out)@ + items_part("properties"@, value@)->0,
    decreases value, 0nat,
{
    let ghost start = out@;
    out.append("properties:{");
    if let Json::Object(map) = value {
        assert(decreases_to!(*value => value->Object_0));
        format_parameters(map, false, out);
    }
    out.append("}");
    proof {
        reveal_strlit("");
    }
    assert(out@ =~= start + items_part("properties"@, value@)->0);
}

/// Appends the required properties of an array's items.
fn format_item_required(value: &Json, out: &mut String)
    requires
        !(value@ is Null),
    ensures
        final(out)@ == old(out)@ + ("required:["@ + (match value@ {
            JsonView::Array(names) => quoted_items(names),
            _ => ""@,
        }) + "]"@),
{
    let ghost start = out@;
    out.append("required:[");
    if let Json::Array(names) = value {
        push_quoted_list(names, out);
    }
    out.append("]");
    proof {
        reveal_strlit("");
    }
    assert(out@ =~= start + ("required:["@ + (match value@ {
        JsonView::Array(names) => quoted_items(names),
        _ => ""@,
    }) + "]"@));
}

/// Appends the type of an array's items.
fn format_item_type(value: &Json, out: &mut String)
    ensures
        final(out)@ == old(out)@ + ("type:"@ + item_type(value@)),
{
    let ghost start = out@;
    out.append("type:");
    match value {
        Json::Text(_) => push_quoted(out, upper(value).as_str()),
        Json::Array(types) => {
            let uppered = upper_all(types);
            format_argument(&uppered, true, out);
        },
        _ => format_argument(value, true, out),
    }
    assert(out@ =~= start + ("type:"@ + item_type(value@)));
}

/// The values of a list in upper case.
fn upper_all(types: &Vec<Json>) -> (r: Json)
    ensures
        r@ == JsonView::Array(
            json_views(types@).map_values(|t: JsonView| JsonView::Text(upper_text(t))),
        ),
{
    let mut out: Vec<Json> = Vec::new();
    let ghost views = json_views(types@);
    let ghost want = views.map_values(|t: JsonView| JsonView::Text(upper_text(t)));
    proof {
        lemma_json_views(types@);
    }
    assert(json_views(out@) =~= want.take(0));
    let mut i: usize = 0;
    while i < types.len()
        invariant
            i <= types@.len(),
            views.len() == types@.len(),
            want == views.map_values(|t: JsonView| JsonView::Text(upper_text(t))),
            forall|k: int| 0 <= k < types@.len() ==> #[trigger] views[k] == json_view(types@[k]),
            json_views(out@) == want.take(i as int),
        decreases types@.len() - i,
    {
        let ghost before = out@;
        assert(views[i as int] == json_view(types@[i as int]));
        let up = Json::Text(upper(&types[i]));
        assert(json_view(up) == want[i as int]);
        out.push(up);
        assert(out@.subrange(0, out@.len() - 1) =~= before);
        assert(json_views(out@) =~= want.take(i + 1));
        i = i + 1;
    }
    assert(want.take(i as int) =~= want);
    Json::Array(out)
}

/// A text, or nothing.
pub open spec fn shown_if(cond: bool, text: Seq<char>) -> Seq<char> {
    if cond {
        text
    } else {
        Seq::empty()
    }
}

/// The properties that a declaration's parameters list.
pub open spec fn declared_properties(params: JsonView) -> Seq<char> {
    match member(params, "properties"@) {
        Some(props) => shown_if(
            is_truthy(props),
            "properties:{"@ + (match props {
                JsonView::Object(map) => parameters_text(map, false),
                _ => ""@,
            }) + "},"@,
        ),
        None => Seq::empty(),
    }
}

/// The names that a declaration's parameters require.
pub open spec fn declared_required(params: JsonView) -> Seq<char> {
    match member(params, "required"@) {
        Some(JsonView::Array(names)) => shown_if(
            names.len() > 0,
            "required:["@ + quoted_items(names) + "],"@,
        ),
        _ => Seq::empty(),
    }
}

/// The type of a declaration's parameters, with the brace that closes them.
pub open spec fn declared_type(params: JsonView) -> Seq<char> {
    match member(params, "type"@) {
        Some(t) => shown_if(is_truthy(t), "type:"@ + quoted(upper_text(t)) + "}"@),
        None => Seq::empty(),
    }
}

/// The parameters of a declaration.
pub open spec fn declared_parameters(params: JsonView) -> Seq<char> {
    shown_if(
        is_truthy(params),
        ",parameters:{"@ + declared_properties(params) + declared_required(params)
            + declared_type(params),
    )
}

/// The response of a declaration.
pub open spec fn declared_response(response: JsonView) -> Seq<char> {
    let description = match member(response, "description"@) {
        Some(JsonView::Text(d)) => shown_if(d.len() > 0, "description:"@ + quoted(d) + ","@),
        _ => Seq::empty(),
    };
    let ty = match member(response, "type"@) {
        Some(t) => shown_if(upper_text(t) == "OBJECT"@, "type:"@ + quoted("OBJECT"@) + "}"@),
        None => Seq::empty(),
    };
    ",response:{"@ + description + ty
}

/// A tool declaration.
pub open spec fn declaration_text(tool: ToolDecl) -> Seq<char> {
    "declaration:"@ + tool.name@ + "{description:"@ + quoted(tool.description@)
        + declared_parameters(tool.parameters@) + (match tool.response {
        Some(response) => declared_response(response@),
        None => Seq::empty(),
    }) + "}"@
}

/// Appends the properties that a declaration's parameters list.
fn push_properties(params: &Json, out: &mut String)
    ensures
        final(out)@ == old(out)@ + declared_properties(params@),
{
    let ghost start = out@;
    if let Some(props) = params.get("properties") {
        if truthy(props) {
            out.append("properties:{");
            if let Json::Object(map) = props {
                format_parameters(map, false, out);
            }
            out.append("},");
            proof {
                reveal_strlit("");
            }
        }
    }
    assert(out@ =~= start + declared_properties(params@));
}

/// Appends the names that a declaration's parameters require.
fn push_required(params: &Json, out: &mut String)
    ensures
        final(out)@ == old(out)@ + declared_required(params@),
{
    let ghost start = out@;
    if let Some(Json::Array(names)) = params.get("required") {
        proof {
            lemma_json_views(names@);
        }
        if names.len() > 0 {
            out.append("required:[");
            push_quoted_list(names, out);
            out.append("],");
        }
    }
    assert(out@ =~= start + declared_required(params@));
}

/// Appends the parameters of a declaration.
fn push_parameters(params: &Json, out: &mut String)
    ensures
        final(out)@ == old(out)@ + declared_parameters(params@),
{
    let ghost start = out@;
    if !truthy(params) {
        assert(start + Seq::<char>::empty() =~= start);
        return;
    }
    out.append(",parameters:{");
    push_properties(params, out);
    push_required(params, out);
    let ghost body = out@;
    if let Some(ty) = params.get("type") {
        if truthy(ty) {
            out.append("type:");
            push_quoted(out, upper(ty).as_str());
            out.append("}");
        }
    }
    assert(out@ =~= body + declared_type(params@));
    assert(out@ =~= start + (",parameters:{"@ + declared_properties(params@) + declared_required(
        params@,
    ) + declared_type(params@)));
}

/// Appends the response of a declaration.
fn push_response(response: &Json, out: &mut String)
    ensures
        final(out)@ == old(out)@ + declared_response(response@),
{
    let ghost start = out@;
    out.append(",response:{");
    let ghost at1 = out@;
    if let Some(Json::Text(desc)) = response.get("description") {
        proof {
            reveal_strlit("");
            assert(desc@.len() == 0 ==> desc@ =~= ""@);
        }
        if !same_text(desc.as_str(), "") {
            out.append("description:");
            push_quoted(out, desc.as_str());
            out.append(",");
        }
    }
    let ghost description = match member(response@, "description"@) {
        Some(JsonView::Text(d)) => shown_if(d.len() > 0, "description:"@ + quoted(d) + ","@),
        _ => Seq::empty(),
    };
    assert(out@ =~= at1 + description);
    let ghost at2 = out@;
    if let Some(ty) = response.get("type") {
        if same_text(upper(ty).as_str(), "OBJECT") {
            out.append("type:");
            push_quoted(out, "OBJECT");
            out.append("}");
        }
    }
    let ghost ty = match member(response@, "type"@) {
        Some(t) => shown_if(upper_text(t) == "OBJECT"@, "type:"@ + quoted("OBJECT"@) + "}"@),
        None => Seq::empty(),
    };
    assert(out@ =~= at2 + ty);
    assert(out@ =~= start + (",response:{"@ + description + ty));
}

/// Renders a tool declaration.
pub fn render_declaration(tool: &ToolDecl) -> (r: String)
    ensures
        r@ == declaration_text(*tool),
{
    let mut out = String::new();
    out.append("declaration:");
    out.append(tool.name.as_str());
    out.append("{description:");
    push_quoted(&mut out, tool.description.as_str());
    let ghost head = out@;
    assert(head =~= "declaration:"@ + tool.name@ + "{description:"@ + quoted(tool.description@));
    push_parameters(&tool.parameters, &mut out);
    match &tool.response {
        Some(response) => push_response(response, &mut out),
        None => {
            assert(out@ + Seq::<char>::empty() =~= out@);
        },
    }
    out.append("}");
    out
}

/// The indices that have a part, in the order given.
spec fn with_part(order: Seq<int>, parts: Seq<Option<Seq<char>>>) -> Seq<int>
    decreases order.len(),
{
    if order.len() == 0 {
        Seq::empty()
    } else {
        let head = with_part(order.drop_last(), parts);
        if parts[order.last()] is Some {
            head.push(order.last())
        } else {
            head
        }
    }
}

proof fn lemma_with_part(order: Seq<int>, parts: Seq<Option<Seq<char>>>)
    ensures
        with_part(order, parts).len() <= order.len(),
        forall|i: int|
            #![trigger with_part(order, parts).contains(i)]
            with_part(order, parts).contains(i) <==> order.contains(i) && parts[i] is Some,
        present(order.map_values(|i: int| parts[i])) == Seq::new(
            with_part(order, parts).len(),
            |k: int| parts[with_part(order, parts)[k]]->0,
        ),
    decreases order.len(),
{
    let kept = with_part(order, parts);
    let mapped = order.map_values(|i: int| parts[i]);
    if order.len() > 0 {
        let head = order.drop_last();
        let last = order.last();
        lemma_with_part(head, parts);
        let had = with_part(head, parts);
        assert(mapped.drop_last() =~= head.map_values(|i: int| parts[i]));
        assert forall|i: int| #[trigger]
            kept.contains(i) <==> order.contains(i) && parts[i] is Some by {
            assert(had.contains(i) <==> head.contains(i) && parts[i] is Some);
            if had.contains(i) {
                assert(kept[had.index_of(i)] == i);
            }
            if head.contains(i) {
                assert(order[head.index_of(i)] == i);
            }
            if order.contains(i) && i != last {
                assert(head[order.index_of(i)] == i);
            }
            if i == last && parts[i] is Some {
                assert(kept[kept.len() - 1] == i);
            }
            if i == last {
                assert(order[order.len() - 1] == i);
            }
            if kept.contains(i) && i != last {
                assert(had[kept.index_of(i)] == i);
            }
        }
        assert(present(mapped) =~= Seq::new(kept.len(), |k: int| parts[kept[k]]->0));
    } else {
        assert(present(mapped) =~= Seq::new(kept.len(), |k: int| parts[kept[k]]->0));
    }
}

proof fn lemma_with_part_sorted(
    entries: Seq<(Seq<char>, JsonView)>,
    order: Seq<int>,
    parts: Seq<Option<Seq<char>>>,
)
    requires
        order.no_duplicates(),
        in_order(entries, order),
    ensures
        with_part(order, parts).no_duplicates(),
        in_order(entries, with_part(order, parts)),
    decreases order.len(),
{
    if order.len() > 0 {
        let head = order.drop_last();
        let last = order.last();
        assert(in_order(entries, head)) by {
            assert forall|k: int, l: int| 0 <= k < l < head.len() implies precedes(
                entries,
                #[trigger] head[k],
                #[trigger] head[l],
            ) by {
                assert(precedes(entries, order[k], order[l]));
            }
        }
        lemma_with_part_sorted(entries, head, parts);
        lemma_with_part(head, parts);
        let had = with_part(head, parts);
        assert(!head.contains(last));
        assert forall|k: int| 0 <= k < had.len() implies precedes(
            entries,
            #[trigger] had[k],
            last,
        ) && had[k] != last by {
            assert(had.contains(had[k]));
            assert(head.contains(had[k]));
            let at = head.index_of(had[k]);
            assert(order[at] == had[k]);
            assert(precedes(entries, order[at], order[order.len() - 1]));
        }
    }
}

/// Parts that some entries have, in the order of the keys: those of a sorted
/// listing of the entries that have one.
pub proof fn lemma_present_listed(
    entries: Seq<(Seq<char>, JsonView)>,
    parts: Seq<Option<Seq<char>>>,
    kept: spec_fn(int) -> bool,
) -> (order: Seq<int>)
    requires
        parts.len() == entries.len(),
        forall|i: int| 0 <= i < entries.len() ==> kept(i) == (#[trigger] parts[i] is Some),
    ensures
        sorted_listing(entries, kept, order),
        present(by_key(entries, parts)) == Seq::new(order.len(), |k: int| parts[order[k]]->0),
{
    let full = dict_order(keys_of(entries), entries.len());
    lemma_listing(entries);
    assert(in_order(entries, full));
    lemma_with_part(full, parts);
    lemma_with_part_sorted(entries, full, parts);
    let order = with_part(full, parts);
    assert forall|i: int| #[trigger] order.contains(i) <==> 0 <= i < entries.len() && kept(i) by {
        assert(full.contains(i) <==> 0 <= i < entries.len() && every()(i));
    }
    assert(by_key(entries, parts) =~= full.map_values(|i: int| parts[i]));
    order
}

/// The properties that are shown: all, or but for the keys that describe the
/// node itself.
pub open spec fn shown_keys(props: Seq<(Seq<char>, JsonView)>, filter_keys: bool) -> spec_fn(
    int,
) -> bool {
    |i: int|
        !(filter_keys && (props[i].0 == "description"@ || props[i].0 == "type"@ || props[i].0
            == "properties"@ || props[i].0 == "required"@ || props[i].0 == "nullable"@))
}

/// A property map shows every property, each once and by key, with its whole
/// schema between braces.
#[verifier::rlimit(40)]
pub proof fn lemma_parameters_written(props: Seq<(Seq<char>, JsonView)>, filter_keys: bool)
    ensures
        exists|order: Seq<int>|
            {
                &&& #[trigger] sorted_listing(props, shown_keys(props, filter_keys), order)
                &&& parameters_text(props, filter_keys) == joined(
                    Seq::new(
                        order.len(),
                        |k: int|
                            props[order[k]].0 + ":{"@ + schema_text(props[order[k]].1) + "}"@,
                    ),
                )
            },
{
    let parts = parameter_texts(props, filter_keys);
    let kept = shown_keys(props, filter_keys);
    lemma_parameter_texts(props, filter_keys);
    let order = lemma_present_listed(props, parts, kept);
    assert(Seq::new(order.len(), |k: int| parts[order[k]]->0) =~= Seq::new(
        order.len(),
        |k: int| props[order[k]].0 + ":{"@ + schema_text(props[order[k]].1) + "}"@,
    )) by {
        assert forall|k: int| 0 <= k < order.len() implies parts[#[trigger] order[k]] == Some(
            props[order[k]].0 + ":{"@ + schema_text(props[order[k]].1) + "}"@,
        ) by {
            assert(order.contains(order[k]));
            assert(kept(order[k]));
        }
    }
}

/// A text on a line of its own, or no line.
pub open spec fn line_if(cond: bool, text: Seq<char>) -> Seq<Seq<char>> {
    if cond {
        seq![text]
    } else {
        Seq::empty()
    }
}

proof fn lemma_present_six(
    a: Option<Seq<char>>,
    b: Option<Seq<char>>,
    c: Option<Seq<char>>,
    d: Option<Seq<char>>,
    e: Option<Seq<char>>,
    f: Option<Seq<char>>,
)
    ensures
        present(seq![a, b, c, d, e, f]) == line_if(a is Some, a->0) + line_if(b is Some, b->0)
            + line_if(c is Some, c->0) + line_if(d is Some, d->0) + line_if(e is Some, e->0)
            + line_if(f is Some, f->0),
{
    let none = Seq::<Option<Seq<char>>>::empty();
    assert(seq![a, b, c, d, e, f] =~= none.push(a).push(b).push(c).push(d).push(e).push(f));
    lemma_present_push(none, a);
    lemma_present_push(none.push(a), b);
    lemma_present_push(none.push(a).push(b), c);
    lemma_present_push(none.push(a).push(b).push(c), d);
    lemma_present_push(none.push(a).push(b).push(c).push(d), e);
    lemma_present_push(none.push(a).push(b).push(c).push(d).push(e), f);
    assert(present(seq![a, b, c, d, e, f]) =~= line_if(a is Some, a->0) + line_if(b is Some, b->0)
        + line_if(c is Some, c->0) + line_if(d is Some, d->0) + line_if(e is Some, e->0) + line_if(
        f is Some,
        f->0,
    ));
}

/// How a schema node is written: what it says of itself, of its values, of
/// its properties and what it requires, in this order, and its type last.
#[verifier::rlimit(40)]
pub proof fn lemma_schema_written(v: JsonView)
    ensures
        ({
            let ty = match member(v, "type"@) {
                Some(t) => upper_text(t),
                None => ""@,
            };
            let described = match member(v, "description"@) {
                Some(JsonView::Text(d)) => line_if(
                    d.len() > 0,
                    "description:"@ + ("<|\"|>"@ + d + "<|\"|>"@),
                ),
                _ => Seq::empty(),
            };
            let choices = match member(v, "enum"@) {
                Some(e) => line_if(
                    ty == "STRING"@ && is_truthy(e),
                    "enum:"@ + argument_text(e, true),
                ),
                None => Seq::empty(),
            };
            let contents = match member(v, "items"@) {
                Some(JsonView::Object(items)) => line_if(
                    ty == "ARRAY"@ && items.len() > 0,
                    "items:{"@ + items_text(items) + "}"@,
                ),
                _ => Seq::empty(),
            };
            let nullable = match member(v, "nullable"@) {
                Some(n) => line_if(is_truthy(n), "nullable:true"@),
                None => Seq::empty(),
            };
            let properties = match (v, member(v, "properties"@)) {
                (JsonView::Object(_), Some(JsonView::Object(map))) => line_if(
                    ty == "OBJECT"@,
                    "properties:{"@ + parameters_text(map, false) + "}"@,
                ),
                (JsonView::Object(entries), _) => line_if(
                    ty == "OBJECT"@,
                    "properties:{"@ + parameters_text(entries, true) + "}"@,
                ),
                _ => Seq::empty(),
            };
            let required = match member(v, "required"@) {
                Some(JsonView::Array(names)) => line_if(
                    ty == "OBJECT"@ && names.len() > 0,
                    "required:["@ + quoted_items(names) + "]"@,
                ),
                _ => Seq::empty(),
            };
            let own = seq!["type:"@ + ("<|\"|>"@ + ty + "<|\"|>"@)];
            schema_text(v) == joined(
                described + choices + contents + nullable + properties + required + own,
            )
        }),
{
    let ty = type_text(v);
    let parts = (
        description_part(v),
        kind_part(v),
        nullable_part(v),
        object_part(v, properties_kind(v)),
        object_part(v, required_part(v)),
        Some("type:"@ + quoted(ty)),
    );
    lemma_present_six(parts.0, parts.1, parts.2, parts.3, parts.4, parts.5);
    reveal_strlit("STRING");
    reveal_strlit("ARRAY");
    reveal_strlit("OBJECT");
    reveal_strlit("");
    assert("STRING"@[0] == 'S' && "ARRAY"@[0] == 'A' && "OBJECT"@[0] == 'O');
    let none = Seq::<Seq<char>>::empty();
    let choices = match member(v, "enum"@) {
        Some(e) => line_if(ty == "STRING"@ && is_truthy(e), "enum:"@ + argument_text(e, true)),
        None => none,
    };
    let contents = match member(v, "items"@) {
        Some(JsonView::Object(items)) => line_if(
            ty == "ARRAY"@ && items.len() > 0,
            "items:{"@ + items_text(items) + "}"@,
        ),
        _ => none,
    };
    assert(choices + contents =~= line_if(parts.1 is Some, parts.1->0));
    let described = line_if(parts.0 is Some, parts.0->0);
    assert(described + choices + contents =~= described + (choices + contents));
}

/// The entries of an item schema that are shown: those that are not null.
pub open spec fn shown_items(items: Seq<(Seq<char>, JsonView)>) -> spec_fn(int) -> bool {
    |i: int| !(items[i].1 is Null)
}

/// An item schema shows every entry that is not null, each once and by key:
/// properties and required names as a schema node does, the type in upper
/// case, and anything else as a value.
#[verifier::rlimit(40)]
pub proof fn lemma_items_written(items: Seq<(Seq<char>, JsonView)>) -> (r: (
    Seq<int>,
    Seq<Seq<char>>,
))
    ensures
        sorted_listing(items, shown_items(items), r.0),
        r.1.len() == r.0.len(),
        items_text(items) == joined(r.1),
        forall|k: int|
            0 <= k < r.0.len() ==> {
                let (key, v) = items[r.0[k]];
                let text = #[trigger] r.1[k];
                match v {
                    JsonView::Object(map) => key == "properties"@ ==> text == "properties:{"@
                        + parameters_text(map, false) + "}"@,
                    JsonView::Array(names) => {
                        &&& key == "required"@ ==> text == "required:["@ + quoted_items(names)
                            + "]"@
                        &&& key == "type"@ ==> text == "type:"@ + argument_text(
                            JsonView::Array(
                                Seq::new(
                                    names.len(),
                                    |i: int| JsonView::Text(upper_text(names[i])),
                                ),
                            ),
                            true,
                        )
                    },
                    JsonView::Text(s) => key == "type"@ ==> text == "type:"@ + ("<|\"|>"@
                        + uppercase(s) + "<|\"|>"@),
                    _ => true,
                }
            },
        forall|k: int|
            0 <= k < r.0.len() ==> {
                let (key, v) = items[r.0[k]];
                let text = #[trigger] r.1[k];
                &&& key == "properties"@ && !(v is Object) ==> text == "properties:{"@ + ""@ + "}"@
                &&& key == "required"@ && !(v is Array) ==> text == "required:["@ + ""@ + "]"@
                &&& key == "type"@ && !(v is Array) && !(v is Text) ==> text == "type:"@
                    + argument_text(v, true)
                &&& key != "properties"@ && key != "required"@ && key != "type"@ ==> text == key
                    + ":"@ + argument_text(v, true)
            },
{
    let parts = items_parts(items);
    let kept = shown_items(items);
    lemma_items_parts(items);
    let order = lemma_present_listed(items, parts, kept);
    let texts = Seq::new(order.len(), |k: int| parts[order[k]]->0);
    reveal_strlit("properties");
    reveal_strlit("required");
    reveal_strlit("type");
    assert("properties"@[0] == 'p' && "required"@[0] == 'r' && "type"@[0] == 't');
    assert forall|k: int| 0 <= k < order.len() implies parts[order[k]] == items_part(
        items[order[k]].0,
        items[order[k]].1,
    ) && #[trigger] texts[k] == items_part(items[order[k]].0, items[order[k]].1)->0 && !(
    items[order[k]].1 is Null) by {
        assert(order.contains(order[k]));
        assert(kept(order[k]));
    }
    assert forall|k: int| 0 <= k < order.len() implies (match items[order[k]].1 {
        JsonView::Array(names) => items[order[k]].0 == "type"@ ==> #[trigger] texts[k] == "type:"@
            + argument_text(
            JsonView::Array(Seq::new(names.len(), |i: int| JsonView::Text(upper_text(names[i])))),
            true,
        ),
        _ => true,
    }) by {
        match items[order[k]].1 {
            JsonView::Array(names) => {
                assert(names.map_values(|t: JsonView| JsonView::Text(upper_text(t))) =~= Seq::new(
                    names.len(),
                    |i: int| JsonView::Text(upper_text(names[i])),
                ));
                assert(texts[k] == items_part(items[order[k]].0, items[order[k]].1)->0);
            },
            _ => {},
        }
    }
    (order, texts)
}

/// How a declaration is written: name and description, the parameters with
/// all that they list, require and are, and the response.
#[verifier::rlimit(40)]
pub proof fn lemma_declaration_written(tool: ToolDecl)
    ensures
        ({
            let params = tool.parameters@;
            let properties = match member(params, "properties"@) {
                Some(JsonView::Object(map)) => if map.len() > 0 {
                    "properties:{"@ + parameters_text(map, false) + "},"@
                } else {
                    Seq::empty()
                },
                Some(p) => if is_truthy(p) {
                    "properties:{"@ + ""@ + "},"@
                } else {
                    Seq::empty()
                },
                None => Seq::empty(),
            };
            let required = match member(params, "required"@) {
                Some(JsonView::Array(names)) => if names.len() > 0 {
                    "required:["@ + quoted_items(names) + "],"@
                } else {
                    Seq::empty()
                },
                _ => Seq::empty(),
            };
            let ty = match member(params, "type"@) {
                Some(t) => if is_truthy(t) {
                    "type:"@ + ("<|\"|>"@ + upper_text(t) + "<|\"|>"@) + "}"@
                } else {
                    Seq::empty()
                },
                None => Seq::empty(),
            };
            let parameters = if is_truthy(params) {
                ",parameters:{"@ + properties + required + ty
            } else {
                Seq::empty()
            };
            let response = match tool.response {
                Some(r) => ",response:{"@ + (match member(r@, "description"@) {
                    Some(JsonView::Text(d)) => if d.len() > 0 {
                        "description:"@ + ("<|\"|>"@ + d + "<|\"|>"@) + ","@
                    } else {
                        Seq::empty()
                    },
                    _ => Seq::empty(),
                }) + (match member(r@, "type"@) {
                    Some(t) => if upper_text(t) == "OBJECT"@ {
                        "type:"@ + ("<|\"|>"@ + "OBJECT"@ + "<|\"|>"@) + "}"@
                    } else {
                        Seq::empty()
                    },
                    None => Seq::empty(),
                }),
                None => Seq::empty(),
            };
            declaration_text(tool) == "declaration:"@ + tool.name@ + "{description:"@ + (
            "<|\"|>"@ + tool.description@ + "<|\"|>"@) + parameters + response + "}"@
        }),
{
}

} // verus!
