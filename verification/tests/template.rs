//! Prompts as they are rendered.

use super_gemma::argument::{format_argument, push_quoted_list, upper};
use super_gemma::json::{dictsort, set_entry, truthy, Json, Number};
use super_gemma::schema::render_declaration;
use super_gemma::template::{
    render_prompt, strip_thinking, ChatMessage, ChatRole, PromptOptions, ToolCallMsg, ToolDecl,
};

fn text(s: &str) -> Json {
    Json::Text(s.to_owned())
}

fn whole(n: u64) -> Json {
    Json::Number(Number::PosInt(n))
}

fn object(entries: &[(&str, Json)]) -> Json {
    let mut list: Vec<(String, Json)> = Vec::new();
    for (k, v) in entries {
        set_entry(&mut list, k.to_string(), v.clone());
    }
    Json::Object(list)
}

fn opts(add_generation_prompt: bool, enable_thinking: bool) -> PromptOptions {
    PromptOptions {
        add_generation_prompt,
        enable_thinking,
    }
}

fn call(id: Option<&str>, name: &str, arguments: Json) -> ToolCallMsg {
    ToolCallMsg {
        id: id.map(str::to_owned),
        name: name.to_owned(),
        arguments,
    }
}

fn shown(v: &Json, escape: bool) -> String {
    let mut out = String::new();
    format_argument(v, escape, &mut out);
    out
}

#[test]
fn a_user_message_opens_a_model_turn() {
    let m = [ChatMessage::text(ChatRole::User, " Hi there\n")];
    assert_eq!(
        render_prompt(&m, &[], opts(true, false)),
        "<bos><|turn>user\nHi there<turn|>\n<|turn>model\n<|channel>thought\n<channel|>"
    );
    assert_eq!(
        render_prompt(&m, &[], opts(true, true)),
        "<bos><|turn>system\n<|think|>\n<turn|>\n<|turn>user\nHi there<turn|>\n<|turn>model\n"
    );
    assert_eq!(
        render_prompt(&m, &[], PromptOptions::default()),
        "<bos><|turn>user\nHi there<turn|>\n"
    );
}

#[test]
fn nothing_renders_as_the_start() {
    assert_eq!(render_prompt(&[], &[], opts(false, false)), "<bos>");
    assert_eq!(
        render_prompt(&[], &[], opts(true, false)),
        "<bos><|turn>model\n<|channel>thought\n<channel|>"
    );
}

#[test]
fn a_leading_system_message_is_the_system_turn() {
    let m = [
        ChatMessage::text(ChatRole::System, " Be brief. "),
        ChatMessage::text(ChatRole::User, "Hi"),
        ChatMessage::text(ChatRole::System, "Later"),
    ];
    assert_eq!(
        render_prompt(&m, &[], opts(false, false)),
        "<bos><|turn>system\nBe brief.<turn|>\n<|turn>user\nHi<turn|>\n<|turn>system\nLater<turn|>\n"
    );
}

#[test]
fn assistant_history_loses_its_thoughts() {
    let m = [
        ChatMessage::text(ChatRole::User, "Hi"),
        ChatMessage::text(
            ChatRole::Assistant,
            "<|channel>thought\nhm<channel|>Hello <|channel>x<channel|>you",
        ),
        ChatMessage::text(ChatRole::Assistant, "again"),
        ChatMessage::text(ChatRole::User, "Bye"),
    ];
    assert_eq!(
        render_prompt(&m, &[], opts(false, false)),
        "<bos><|turn>user\nHi<turn|>\n<|turn>model\nHello you<turn|>\nagain<turn|>\n<|turn>user\nBye<turn|>\n"
    );
}

#[test]
fn strip_thinking_removes_channels_and_trims() {
    assert_eq!(strip_thinking(" plain "), "plain");
    assert_eq!(strip_thinking("a<|channel>b<channel|>c"), "ac");
    assert_eq!(strip_thinking("a<channel|>b"), "ab");
    assert_eq!(strip_thinking("a<|channel>b"), "a");
    assert_eq!(strip_thinking(""), "");
}

#[test]
fn tool_calls_and_results_share_the_model_turn() {
    let mut asst = ChatMessage::text(ChatRole::Assistant, "");
    asst.reasoning = Some("think".to_owned());
    asst.tool_calls = vec![
        call(
            Some("c1"),
            "get",
            object(&[("b", whole(2)), ("A", text("x"))]),
        ),
        call(None, "raw", text("k:1")),
    ];
    let mut r1 = ChatMessage::text(ChatRole::Tool, "ok");
    r1.tool_call_id = Some("c1".to_owned());
    r1.tool_name = Some("other".to_owned());
    let mut r2 = ChatMessage::text(ChatRole::Tool, "fine");
    r2.tool_name = Some("named".to_owned());
    let mut r3 = ChatMessage::text(ChatRole::Tool, "");
    r3.tool_call_id = Some("zz".to_owned());
    let user = ChatMessage::text(ChatRole::User, "Go");

    let open = render_prompt(&[user.clone(), asst.clone()], &[], opts(true, false));
    let calls = "<|channel>thought\nthink\n<channel|>\
                 <|tool_call>call:get{A:<|\"|>x<|\"|>,b:2}<tool_call|>\
                 <|tool_call>call:raw{k:1}<tool_call|>";
    assert_eq!(
        open,
        format!("<bos><|turn>user\nGo<turn|>\n<|turn>model\n{calls}<|tool_response>")
    );

    let answered = render_prompt(
        &[user.clone(), asst.clone(), r1, r2, r3],
        &[],
        opts(true, false),
    );
    assert_eq!(
        answered,
        format!(
            "<bos><|turn>user\nGo<turn|>\n<|turn>model\n{calls}\
             <|tool_response>response:get{{value:<|\"|>ok<|\"|>}}<tool_response|>\
             <|tool_response>response:named{{value:<|\"|>fine<|\"|>}}<tool_response|>\
             <|tool_response>response:unknown{{value:<|\"|><|\"|>}}<tool_response|>"
        )
    );

    // Reasoning before the last user message is not shown again.
    let later = render_prompt(
        &[user.clone(), asst, user],
        &[],
        opts(false, false),
    );
    assert_eq!(
        later,
        "<bos><|turn>user\nGo<turn|>\n<|turn>model\n\
         <|tool_call>call:get{A:<|\"|>x<|\"|>,b:2}<tool_call|>\
         <|tool_call>call:raw{k:1}<tool_call|><|tool_response><|turn>user\nGo<turn|>\n"
    );
}

#[test]
fn arguments_are_written_in_their_own_syntax() {
    assert_eq!(shown(&Json::Null, false), "None");
    assert_eq!(shown(&Json::Bool(true), false), "true");
    assert_eq!(shown(&whole(7), false), "7");
    assert_eq!(shown(&Json::Number(Number::NegInt(-7)), false), "-7");
    assert_eq!(
        shown(&Json::Number(Number::Float("2.5".to_owned())), false),
        "2.5"
    );
    let v = object(&[("b", Json::Array(vec![whole(1), text("x")])), ("a", Json::Null)]);
    assert_eq!(shown(&v, false), "{a:None,b:[1,<|\"|>x<|\"|>]}");
    assert_eq!(
        shown(&v, true),
        "{<|\"|>a<|\"|>:None,<|\"|>b<|\"|>:[1,<|\"|>x<|\"|>]}"
    );
}

#[test]
fn sorting_ignores_case_and_keeps_the_order_of_equals() {
    let entries: Vec<(String, Json)> = ["B", "É", "a", "b", "é"]
        .iter()
        .map(|k| (k.to_string(), Json::Null))
        .collect();
    assert_eq!(dictsort(&entries), [2, 0, 3, 1, 4]);
}

#[test]
fn entries_stay_sorted_and_unique() {
    let mut entries = Vec::new();
    for (k, n) in [("b", 1), ("a", 2), ("c", 3), ("a", 4)] {
        set_entry(&mut entries, k.to_owned(), whole(n));
    }
    assert_eq!(
        Json::Object(entries),
        Json::Object(vec![
            ("a".to_owned(), whole(4)),
            ("b".to_owned(), whole(1)),
            ("c".to_owned(), whole(3)),
        ])
    );
}

#[test]
fn truth_is_that_of_the_template_language() {
    for v in [
        Json::Null,
        Json::Bool(false),
        whole(0),
        Json::Number(Number::Float("0.0".to_owned())),
        Json::Number(Number::Float("-0.0".to_owned())),
        text(""),
        Json::Array(vec![]),
        Json::Object(vec![]),
    ] {
        assert!(!truthy(&v), "{v:?}");
    }
    for v in [
        Json::Bool(true),
        whole(1),
        Json::Number(Number::NegInt(-1)),
        Json::Number(Number::Float("0.5".to_owned())),
        text(" "),
        Json::Array(vec![Json::Null]),
        object(&[("a", Json::Null)]),
    ] {
        assert!(truthy(&v), "{v:?}");
    }
}

#[test]
fn upper_turns_what_a_value_shows() {
    assert_eq!(upper(&text("straße")), "STRASSE");
    assert_eq!(upper(&Json::Null), "NONE");
    assert_eq!(upper(&Json::Array(vec![text("a")])), "[<|\"|>A<|\"|>]");
}

#[test]
fn lists_quote_their_items() {
    let mut out = String::from("=");
    push_quoted_list(&vec![text("a"), whole(1), Json::Bool(true)], &mut out);
    assert_eq!(out, "=<|\"|>a<|\"|>,<|\"|>1<|\"|>,<|\"|>true<|\"|>");
}

#[test]
fn a_declaration_lists_properties_required_and_type() {
    let tool = ToolDecl {
        name: "get_weather".to_owned(),
        description: "Gets it".to_owned(),
        parameters: object(&[
            ("type", text("object")),
            (
                "properties",
                object(&[
                    (
                        "unit",
                        object(&[
                            ("type", text("string")),
                            ("enum", Json::Array(vec![text("c"), text("f")])),
                            ("nullable", Json::Bool(true)),
                        ]),
                    ),
                    (
                        "City",
                        object(&[("type", text("string")), ("description", text("Where"))]),
                    ),
                ]),
            ),
            ("required", Json::Array(vec![text("City")])),
        ]),
        response: None,
    };
    let q = "<|\"|>";
    let want = format!(
        "declaration:get_weather{{description:{q}Gets it{q},parameters:{{properties:{{\
         City:{{description:{q}Where{q},type:{q}STRING{q}}},\
         unit:{{enum:[{q}c{q},{q}f{q}],nullable:true,type:{q}STRING{q}}}}},\
         required:[{q}City{q}],type:{q}OBJECT{q}}}}}"
    );
    assert_eq!(render_declaration(&tool), want);
    let prompt = render_prompt(
        &[ChatMessage::text(ChatRole::User, "Hi")],
        &[tool],
        opts(false, false),
    );
    assert_eq!(
        prompt,
        format!("<bos><|turn>system\n<|tool>{want}<tool|><turn|>\n<|turn>user\nHi<turn|>\n")
    );
}

#[test]
fn a_declaration_without_a_type_leaves_its_brace_open() {
    let q = "<|\"|>";
    let mut tool = ToolDecl {
        name: "f".to_owned(),
        description: String::new(),
        parameters: Json::Null,
        response: None,
    };
    assert_eq!(
        render_declaration(&tool),
        format!("declaration:f{{description:{q}{q}}}")
    );
    tool.parameters = object(&[("required", Json::Array(vec![text("a")]))]);
    assert_eq!(
        render_declaration(&tool),
        format!("declaration:f{{description:{q}{q},parameters:{{required:[{q}a{q}],}}")
    );
    tool.parameters = Json::Null;
    tool.response = Some(object(&[
        ("description", text("out")),
        ("type", text("object")),
    ]));
    assert_eq!(
        render_declaration(&tool),
        format!(
            "declaration:f{{description:{q}{q},response:{{description:{q}out{q},type:{q}OBJECT{q}}}}}"
        )
    );
    tool.response = Some(object(&[("type", text("string"))]));
    assert_eq!(
        render_declaration(&tool),
        format!("declaration:f{{description:{q}{q},response:{{}}")
    );
}

#[test]
fn nested_schemas_are_followed() {
    let q = "<|\"|>";
    let tool = ToolDecl {
        name: "f".to_owned(),
        description: "d".to_owned(),
        parameters: object(&[(
            "properties",
            object(&[
                (
                    "list",
                    object(&[
                        ("type", text("array")),
                        (
                            "items",
                            object(&[
                                ("type", Json::Array(vec![text("string"), text("null")])),
                                ("required", Json::Array(vec![text("k")])),
                                (
                                    "properties",
                                    object(&[("k", object(&[("type", text("integer"))]))]),
                                ),
                                ("minLength", whole(1)),
                                ("none", Json::Null),
                            ]),
                        ),
                    ]),
                ),
                (
                    "obj",
                    object(&[
                        ("type", text("object")),
                        ("x", object(&[("type", text("number"))])),
                        ("required", Json::Array(vec![text("x")])),
                    ]),
                ),
                (
                    "sub",
                    object(&[
                        ("type", text("object")),
                        ("description", text("S")),
                        ("properties", object(&[("y", Json::Object(vec![]))])),
                    ]),
                ),
            ]),
        )]),
        response: None,
    };
    assert_eq!(
        render_declaration(&tool),
        format!(
            "declaration:f{{description:{q}d{q},parameters:{{properties:{{\
             list:{{items:{{minLength:1,properties:{{k:{{type:{q}INTEGER{q}}}}},\
             required:[{q}k{q}],type:[{q}STRING{q},{q}NULL{q}]}},type:{q}ARRAY{q}}},\
             obj:{{properties:{{x:{{type:{q}NUMBER{q}}}}},required:[{q}x{q}],type:{q}OBJECT{q}}},\
             sub:{{description:{q}S{q},properties:{{y:{{type:{q}{q}}}}},type:{q}OBJECT{q}}}\
             }},}}"
        )
    );
}

#[test]
fn values_are_found_by_key() {
    let v = object(&[("a", whole(1))]);
    assert_eq!(v.get("a"), Some(&whole(1)));
    assert_eq!(v.get("b"), None);
    assert_eq!(Json::Null.get("a"), None);
}

#[test]
fn a_conversation_that_goes_on_keeps_its_start() {
    let all = [
        ChatMessage::text(ChatRole::System, "Be brief."),
        ChatMessage::text(ChatRole::User, "Hi"),
        ChatMessage::text(ChatRole::Assistant, "Hello"),
        ChatMessage::text(ChatRole::User, "Bye"),
    ];
    let whole = render_prompt(&all, &[], opts(false, true));
    for n in 1..all.len() {
        assert!(whole.starts_with(&render_prompt(&all[..n], &[], opts(false, true))));
    }
    let asked = render_prompt(&all, &[], opts(true, true));
    assert_eq!(asked, format!("{whole}<|turn>model\n"));
}
