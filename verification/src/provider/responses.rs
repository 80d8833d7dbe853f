//! OpenAI Responses API, streamed. Requests are stateless (`store: false` by default): the whole
//! transcript is sent each time, and encrypted reasoning is carried back in it.

use crate::agent;
use crate::agent::{Item, Usage};
use crate::json;
use crate::json::{no_fields, no_items, parse, put, put_item, sealed, sealed_list, Json};
use crate::provider;
use crate::provider::sse;
use crate::provider::sse::Parser;
use crate::provider::{Authorization, Completion, Request};
use crate::sandbox;
use crate::strings;
use crate::strings::{chars_of, number, same, text_between};
use crate::tools;
use crate::tools::{Content, ToolOutput};
use vstd::prelude::*;

verus! {

#[derive(Clone, Debug, PartialEq, Eq)]
pub struct ResponsesConfig {
    /// Endpoint root; requests go to `{base_url}/responses`.
    pub base_url: String,
    /// Sent with every request, such as account or beta headers.
    pub headers: Vec<(String, String)>,
    /// Whether the provider keeps responses server-side.
    pub store: bool,
    /// Attempts after the first for rate limits, server errors and dropped connections.
    pub max_retries: u32,
}

// ---- Requests ----

/// `text` without the slashes that it ends in.
pub open spec fn without_end_slashes(text: Seq<char>) -> Seq<char>
    decreases text.len(),
{
    if text.len() > 0 && text.last() == '/' {
        without_end_slashes(text.drop_last())
    } else {
        text
    }
}

/// Headers: those of every request, then those of the authorization.
pub open spec fn all_headers(config: ResponsesConfig, authorization: Authorization) -> Seq<
    (Seq<char>, Seq<char>),
> {
    sandbox::pairs(config.headers@) + sandbox::pairs(authorization.headers@)
}

fn append_pairs(to: &mut Vec<(String, String)>, from: &Vec<(String, String)>)
    ensures
        sandbox::pairs(final(to)@) == sandbox::pairs(old(to)@) + sandbox::pairs(from@),
{
    let ghost before = sandbox::pairs(to@);
    let ghost more = sandbox::pairs(from@);
    let mut i: usize = 0;
    assert(before + more.take(0) =~= before);
    while i < from.len()
        invariant
            i <= from@.len(),
            more == sandbox::pairs(from@),
            sandbox::pairs(to@) == before + more.take(i as int),
        decreases from@.len() - i,
    {
        let pair = (from[i].0.clone(), from[i].1.clone());
        let ghost so_far = sandbox::pairs(to@);
        to.push(pair);
        assert(sandbox::pairs(to@) =~= so_far.push((pair.0@, pair.1@)));
        i += 1;
        assert(sandbox::pairs(to@) =~= before + more.take(i as int));
    }
    assert(more.take(i as int) =~= more);
}

impl ResponsesConfig {
    /// Where requests go.
    pub fn url(&self) -> (url: String)
        ensures
            url@ == without_end_slashes(self.base_url@) + "/responses"@,
    {
        let chars = chars_of(self.base_url.as_str());
        let mut end: usize = chars.len();
        assert(chars@.take(end as int) =~= chars@);
        while end > 0 && chars[end - 1] == '/'
            invariant
                end <= chars@.len(),
                without_end_slashes(chars@) == without_end_slashes(chars@.take(end as int)),
            decreases end,
        {
            assert(chars@.take(end as int).last() == '/');
            assert(chars@.take(end as int).drop_last() =~= chars@.take(end - 1));
            end -= 1;
        }
        let mut url = text_between(&chars, 0, end);
        proof {
            assert(url@ =~= chars@.take(end as int));
            if end > 0 {
                assert(chars@.take(end as int).last() == chars@[end - 1]);
            }
        }
        url.append("/responses");
        url
    }

    /// What is sent with a request.
    pub fn request_headers(&self, authorization: &Authorization) -> (headers: Vec<(String, String)>)
        ensures
            sandbox::pairs(headers@) == all_headers(*self, *authorization),
    {
        let mut headers: Vec<(String, String)> = Vec::new();
        assert(sandbox::pairs(headers@) =~= Seq::<(Seq<char>, Seq<char>)>::empty());
        append_pairs(&mut headers, &self.headers);
        assert(sandbox::pairs(headers@) =~= sandbox::pairs(self.headers@));
        append_pairs(&mut headers, &authorization.headers);
        headers
    }
}

/// `{"type": kind, "text": text}`.
pub open spec fn text_part(kind: Seq<char>, text: Seq<char>) -> json::JsonView {
    json::JsonView::Object(
        seq![("type"@, json::JsonView::Text(kind)), ("text"@, json::JsonView::Text(text))],
    )
}

pub open spec fn user_message(text: Seq<char>) -> json::JsonView {
    json::JsonView::Object(
        seq![
            ("role"@, json::JsonView::Text("user"@)),
            ("content"@, json::JsonView::List(seq![text_part("input_text"@, text)])),
        ],
    )
}

/// What the model is shown of mail.
pub open spec fn mail_text(from: Seq<char>, text: Seq<char>) -> Seq<char> {
    if from == "user"@ {
        text
    } else {
        "[Message from agent "@ + from + "]\n"@ + text
    }
}

/// What the model is shown of everything before a compaction.
pub open spec fn compaction_text(summary: Seq<char>) -> Seq<char> {
    "The conversation so far was compacted. Summary:\n\n"@ + summary + "\n\nContinue from here."@
}

pub open spec fn summary_parts(summary: Seq<Seq<char>>) -> Seq<json::JsonView> {
    summary.map_values(|text: Seq<char>| text_part("summary_text"@, text))
}

/// Whether a result holds text only.
pub open spec fn is_plain(content: Seq<tools::ContentView>) -> bool {
    forall|i: int| #![trigger content[i]] 0 <= i < content.len() ==> content[i] is Text
}

/// The texts of a result in a row.
pub open spec fn plain_text(content: Seq<tools::ContentView>) -> Seq<char>
    decreases content.len(),
{
    if content.len() == 0 {
        Seq::empty()
    } else {
        plain_text(content.drop_last()) + match content.last() {
            tools::ContentView::Text(text) => text,
            tools::ContentView::Image { .. } => Seq::empty(),
        }
    }
}

pub open spec fn content_part(part: tools::ContentView) -> json::JsonView {
    match part {
        tools::ContentView::Text(text) => text_part("input_text"@, text),
        tools::ContentView::Image { mime, data } => json::JsonView::Object(
            seq![
                ("type"@, json::JsonView::Text("input_image"@)),
                ("image_url"@, json::JsonView::Text("data:"@ + mime + ";base64,"@ + data)),
            ],
        ),
    }
}

/// Plain text stays a string; results carrying images become a content list.
pub open spec fn output_json(content: Seq<tools::ContentView>) -> json::JsonView {
    if is_plain(content) {
        json::JsonView::Text(plain_text(content))
    } else {
        json::JsonView::List(content.map_values(|part: tools::ContentView| content_part(part)))
    }
}

/// What the model is shown of an item. Reasoning without its encrypted state is not shown.
pub open spec fn input_of(item: agent::ItemView) -> Option<json::JsonView> {
    match item {
        agent::ItemView::Input { from, text } => Some(user_message(mail_text(from, text))),
        agent::ItemView::Assistant { text } => Some(
            json::JsonView::Object(
                seq![
                    ("type"@, json::JsonView::Text("message"@)),
                    ("role"@, json::JsonView::Text("assistant"@)),
                    ("content"@, json::JsonView::List(seq![text_part("output_text"@, text)])),
                ],
            ),
        ),
        agent::ItemView::Reasoning { summary, encrypted } => match encrypted {
            Some(state) => Some(
                json::JsonView::Object(
                    seq![
                        ("type"@, json::JsonView::Text("reasoning"@)),
                        ("summary"@, json::JsonView::List(summary_parts(summary))),
                        ("encrypted_content"@, json::JsonView::Text(state)),
                    ],
                ),
            ),
            None => None,
        },
        agent::ItemView::ToolCall { call_id, name, arguments } => Some(
            json::JsonView::Object(
                seq![
                    ("type"@, json::JsonView::Text("function_call"@)),
                    ("call_id"@, json::JsonView::Text(call_id)),
                    ("name"@, json::JsonView::Text(name)),
                    ("arguments"@, json::JsonView::Text(arguments)),
                ],
            ),
        ),
        agent::ItemView::ToolResult { call_id, output } => Some(
            json::JsonView::Object(
                seq![
                    ("type"@, json::JsonView::Text("function_call_output"@)),
                    ("call_id"@, json::JsonView::Text(call_id)),
                    ("output"@, output_json(output.content)),
                ],
            ),
        ),
        agent::ItemView::Compaction { summary } => Some(user_message(compaction_text(summary))),
    }
}

/// What the model is shown of items.
pub open spec fn inputs_of(items: Seq<agent::ItemView>) -> Seq<json::JsonView>
    decreases items.len(),
{
    if items.len() == 0 {
        Seq::empty()
    } else {
        let before = inputs_of(items.drop_last());
        match input_of(items.last()) {
            Some(input) => before.push(input),
            None => before,
        }
    }
}

pub open spec fn tool_json(tool: provider::ToolSpecView) -> json::JsonView {
    json::JsonView::Object(
        seq![
            ("type"@, json::JsonView::Text("function"@)),
            ("name"@, json::JsonView::Text(tool.name)),
            ("description"@, json::JsonView::Text(tool.description)),
            ("parameters"@, tool.parameters),
            ("strict"@, json::JsonView::Bool(false)),
        ],
    )
}

/// The fields of a request that every request has.
pub open spec fn common_fields(request: Request, store: bool) -> Seq<(Seq<char>, json::JsonView)> {
    seq![
        ("model"@, json::JsonView::Text(request.model@)),
        ("instructions"@, json::JsonView::Text(request.system@)),
        ("input"@, json::JsonView::List(inputs_of(agent::item_views(request.items@)))),
        (
            "tools"@,
            json::JsonView::List(
                provider::tool_spec_views(request.tools@).map_values(
                    |tool: provider::ToolSpecView| tool_json(tool),
                ),
            ),
        ),
        ("tool_choice"@, json::JsonView::Text("auto"@)),
        ("parallel_tool_calls"@, json::JsonView::Bool(true)),
        ("stream"@, json::JsonView::Bool(true)),
        ("store"@, json::JsonView::Bool(store)),
        ("prompt_cache_key"@, json::JsonView::Text(request.agent@)),
    ]
}

pub open spec fn reasoning_fields(effort: Option<String>) -> Seq<(Seq<char>, json::JsonView)> {
    match effort {
        Some(effort) => seq![
            (
                "reasoning"@,
                json::JsonView::Object(
                    seq![
                        ("effort"@, json::JsonView::Text(effort@)),
                        ("summary"@, json::JsonView::Text("auto"@)),
                    ],
                ),
            ),
        ],
        None => Seq::empty(),
    }
}

/// What is asked to be returned too: without a store, reasoning has to be carried back.
pub open spec fn returned_fields(store: bool) -> Seq<(Seq<char>, json::JsonView)> {
    if store {
        Seq::empty()
    } else {
        seq![
            (
                "include"@,
                json::JsonView::List(seq![json::JsonView::Text("reasoning.encrypted_content"@)]),
            ),
        ]
    }
}

/// The body of a request.
pub open spec fn body_of(request: Request, store: bool) -> json::JsonView {
    json::JsonView::Object(
        common_fields(request, store) + reasoning_fields(*request.reasoning_effort)
            + returned_fields(store),
    )
}

fn part(kind: &str, text: &str) -> (part: Json)
    ensures
        part@ == text_part(kind@, text@),
{
    let mut fields = no_fields();
    put(&mut fields, "type", json::text(kind));
    put(&mut fields, "text", json::text(text));
    assert(json::field_views(fields@) =~= text_part(kind@, text@)->Object_0);
    sealed(fields)
}

fn one_part(part: Json) -> (list: Json)
    ensures
        list@ == json::JsonView::List(seq![part@]),
{
    let mut items = no_items();
    put_item(&mut items, part);
    assert(json::views(items@) =~= seq![part@]);
    sealed_list(items)
}

fn from_user(text: &str) -> (message: Json)
    ensures
        message@ == user_message(text@),
{
    let mut fields = no_fields();
    put(&mut fields, "role", json::text("user"));
    put(&mut fields, "content", one_part(part("input_text", text)));
    assert(json::field_views(fields@) =~= user_message(text@)->Object_0);
    sealed(fields)
}

/// What the model is shown of a tool's result.
pub fn tool_output(output: &ToolOutput) -> (shown: Json)
    ensures
        shown@ == output_json(output@.content),
{
    let ghost content = output@.content;
    let mut plain = true;
    let mut text = String::new();
    let mut parts = no_items();
    let mut i: usize = 0;
    assert(content.take(0) =~= Seq::<tools::ContentView>::empty());
    while i < output.content.len()
        invariant
            i <= output.content@.len(),
            content == tools::content_views(output.content@),
            plain == is_plain(content.take(i as int)),
            text@ == plain_text(content.take(i as int)),
            json::views(parts@) == content.take(i as int).map_values(
                |part: tools::ContentView| content_part(part),
            ),
        decreases output.content@.len() - i,
    {
        let ghost now = content.take(i + 1);
        let ghost done = content.take(i as int);
        proof {
            assert(now.drop_last() =~= done);
            assert(now.last() == output.content@[i as int]@);
            assert(is_plain(now) <==> is_plain(done) && now.last() is Text) by {
                if is_plain(now) {
                    assert(now[i as int] is Text);
                    assert forall|k: int| #![trigger done[k]] 0 <= k < done.len() implies done[k] is Text by {
                        assert(now[k] == done[k]);
                    }
                }
                if is_plain(done) && now.last() is Text {
                    assert forall|k: int| #![trigger now[k]] 0 <= k < now.len() implies now[k] is Text by {
                        if k < i {
                            assert(now[k] == done[k]);
                        }
                    }
                }
            }
        }
        match &output.content[i] {
            Content::Text(more) => {
                text.append(more.as_str());
                put_item(&mut parts, part("input_text", more.as_str()));
            },
            Content::Image { mime, data } => {
                plain = false;
                let mut url = "data:".to_owned();
                url.append(mime.as_str());
                url.append(";base64,");
                url.append(data.as_str());
                let mut fields = no_fields();
                put(&mut fields, "type", json::text("input_image"));
                put(&mut fields, "image_url", json::text(url.as_str()));
                assert(json::field_views(fields@) =~= content_part(now.last())->Object_0);
                put_item(&mut parts, sealed(fields));
                assert(text@ + Seq::<char>::empty() =~= text@);
            },
        }
        i += 1;
        assert(json::views(parts@) =~= now.map_values(
            |part: tools::ContentView| content_part(part),
        ));
    }
    assert(content.take(i as int) =~= content);
    if plain {
        Json::Text(text)
    } else {
        sealed_list(parts)
    }
}

/// What the model is shown of an item.
pub fn input_item(item: &Item) -> (input: Option<Json>)
    ensures
        match input {
            Some(input) => input_of(item@) == Some(input@),
            None => input_of(item@) is None,
        },
{
    match item {
        Item::Input { from, text } => {
            if same(from.as_str(), "user") {
                Some(from_user(text.as_str()))
            } else {
                let mut shown = "[Message from agent ".to_owned();
                shown.append(from.as_str());
                shown.append("]\n");
                shown.append(text.as_str());
                Some(from_user(shown.as_str()))
            }
        },
        Item::Assistant { text } => {
            let mut fields = no_fields();
            put(&mut fields, "type", json::text("message"));
            put(&mut fields, "role", json::text("assistant"));
            put(&mut fields, "content", one_part(part("output_text", text.as_str())));
            assert(json::field_views(fields@) =~= (input_of(item@)->0)->Object_0);
            Some(sealed(fields))
        },
        Item::Reasoning { summary, encrypted } => match encrypted {
            Some(state) => {
                let ghost wanted = summary_parts(strings::texts(summary@));
                let mut parts = no_items();
                let mut i: usize = 0;
                assert(json::views(parts@) =~= wanted.take(0));
                while i < summary.len()
                    invariant
                        i <= summary@.len(),
                        wanted == summary_parts(strings::texts(summary@)),
                        json::views(parts@) == wanted.take(i as int),
                    decreases summary@.len() - i,
                {
                    assert(strings::texts(summary@)[i as int] == summary@[i as int]@);
                    put_item(&mut parts, part("summary_text", summary[i].as_str()));
                    i += 1;
                    assert(json::views(parts@) =~= wanted.take(i as int));
                }
                assert(wanted.take(i as int) =~= wanted);
                let mut fields = no_fields();
                put(&mut fields, "type", json::text("reasoning"));
                put(&mut fields, "summary", sealed_list(parts));
                put(&mut fields, "encrypted_content", json::text(state.as_str()));
                assert(json::field_views(fields@) =~= (input_of(item@)->0)->Object_0);
                Some(sealed(fields))
            },
            None => None,
        },
        Item::ToolCall { call_id, name, arguments } => {
            let mut fields = no_fields();
            put(&mut fields, "type", json::text("function_call"));
            put(&mut fields, "call_id", json::text(call_id.as_str()));
            put(&mut fields, "name", json::text(name.as_str()));
            put(&mut fields, "arguments", json::text(arguments.as_str()));
            assert(json::field_views(fields@) =~= (input_of(item@)->0)->Object_0);
            Some(sealed(fields))
        },
        Item::ToolResult { call_id, output } => {
            let mut fields = no_fields();
            put(&mut fields, "type", json::text("function_call_output"));
            put(&mut fields, "call_id", json::text(call_id.as_str()));
            put(&mut fields, "output", tool_output(output));
            assert(json::field_views(fields@) =~= (input_of(item@)->0)->Object_0);
            Some(sealed(fields))
        },
        Item::Compaction { summary } => {
            let mut shown = "The conversation so far was compacted. Summary:\n\n".to_owned();
            shown.append(summary.as_str());
            shown.append("\n\nContinue from here.");
            Some(from_user(shown.as_str()))
        },
    }
}

/// The body of a request.
pub fn body(request: &Request, store: bool) -> (body: Json)
    ensures
        body@ == body_of(*request, store),
{
    let ghost items = agent::item_views(request.items@);
    let mut inputs = no_items();
    let mut i: usize = 0;
    assert(items.take(0) =~= Seq::<agent::ItemView>::empty());
    while i < request.items.len()
        invariant
            i <= request.items@.len(),
            items == agent::item_views(request.items@),
            json::views(inputs@) == inputs_of(items.take(i as int)),
        decreases request.items@.len() - i,
    {
        assert(items.take(i + 1).drop_last() =~= items.take(i as int));
        assert(items.take(i + 1).last() == request.items@[i as int]@);
        match input_item(&request.items[i]) {
            Some(input) => {
                put_item(&mut inputs, input);
            },
            None => {},
        }
        i += 1;
    }
    assert(items.take(i as int) =~= items);
    let ghost shown = provider::tool_spec_views(request.tools@).map_values(
        |tool: provider::ToolSpecView| tool_json(tool),
    );
    let mut tools = no_items();
    let mut j: usize = 0;
    assert(json::views(tools@) =~= shown.take(0));
    while j < request.tools.len()
        invariant
            j <= request.tools@.len(),
            shown == provider::tool_spec_views(request.tools@).map_values(
                |tool: provider::ToolSpecView| tool_json(tool),
            ),
            json::views(tools@) == shown.take(j as int),
        decreases request.tools@.len() - j,
    {
        let tool = &request.tools[j];
        let mut fields = no_fields();
        put(&mut fields, "type", json::text("function"));
        put(&mut fields, "name", json::text(tool.name.as_str()));
        put(&mut fields, "description", json::text(tool.description.as_str()));
        put(&mut fields, "parameters", tool.parameters.copied());
        put(&mut fields, "strict", Json::Bool(false));
        assert(json::field_views(fields@) =~= tool_json(tool@)->Object_0);
        put_item(&mut tools, sealed(fields));
        j += 1;
        assert(json::views(tools@) =~= shown.take(j as int));
    }
    assert(shown.take(j as int) =~= shown);
    let mut fields = no_fields();
    put(&mut fields, "model", json::text(request.model));
    put(&mut fields, "instructions", json::text(request.system));
    put(&mut fields, "input", sealed_list(inputs));
    put(&mut fields, "tools", sealed_list(tools));
    put(&mut fields, "tool_choice", json::text("auto"));
    put(&mut fields, "parallel_tool_calls", Json::Bool(true));
    put(&mut fields, "stream", Json::Bool(true));
    put(&mut fields, "store", Json::Bool(store));
    put(&mut fields, "prompt_cache_key", json::text(request.agent));
    assert(json::field_views(fields@) =~= common_fields(*request, store));
    match request.reasoning_effort {
        Some(effort) => {
            let mut reasoning = no_fields();
            put(&mut reasoning, "effort", json::text(effort.as_str()));
            put(&mut reasoning, "summary", json::text("auto"));
            assert(json::field_views(reasoning@) =~= reasoning_fields(
                *request.reasoning_effort,
            )[0].1->Object_0);
            put(&mut fields, "reasoning", sealed(reasoning));
        },
        None => {},
    }
    assert(json::field_views(fields@) =~= common_fields(*request, store) + reasoning_fields(
        *request.reasoning_effort,
    ));
    if !store {
        put(&mut fields, "include", one_part(json::text("reasoning.encrypted_content")));
    }
    assert(json::field_views(fields@) =~= body_of(*request, store)->Object_0);
    sealed(fields)
}

// ---- Answers ----

/// The texts of a message's parts that are text.
pub open spec fn message_text(parts: Seq<json::JsonView>) -> Seq<char>
    decreases parts.len(),
{
    if parts.len() == 0 {
        Seq::empty()
    } else {
        let before = message_text(parts.drop_last());
        if parts.last().at("type"@) == json::JsonView::Text("output_text"@) {
            before + parts.last().at("text"@).text_or_empty()
        } else {
            before
        }
    }
}

/// The texts of a summary's parts.
pub open spec fn summary_texts(parts: Option<Seq<json::JsonView>>) -> Seq<Seq<char>> {
    match parts {
        Some(parts) => parts.map_values(
            |part: json::JsonView| part.at("text"@).text_or_empty(),
        ),
        None => Seq::empty(),
    }
}

/// The item that the model put out, where it is one that a transcript holds.
pub open spec fn item_of(item: json::JsonView) -> Option<agent::ItemView> {
    match item.at("type"@).text() {
        None => None,
        Some(kind) => if kind == "message"@ {
            match item.at("content"@).list() {
                Some(parts) => Some(agent::ItemView::Assistant { text: message_text(parts) }),
                None => None,
            }
        } else if kind == "reasoning"@ {
            Some(
                agent::ItemView::Reasoning {
                    summary: summary_texts(item.at("summary"@).list()),
                    encrypted: item.at("encrypted_content"@).text(),
                },
            )
        } else if kind == "function_call"@ {
            Some(
                agent::ItemView::ToolCall {
                    call_id: item.at("call_id"@).text_or_empty(),
                    name: item.at("name"@).text_or_empty(),
                    arguments: item.at("arguments"@).text_or_empty(),
                },
            )
        } else {
            None
        },
    }
}

pub open spec fn count_at(value: json::JsonView) -> nat {
    match value.unsigned() {
        Some(count) => count,
        None => 0,
    }
}

/// Whether these are the tokens that an answer says it took.
pub open spec fn is_usage(usage: Usage, value: json::JsonView) -> bool {
    &&& usage.input == count_at(value.at("input_tokens"@))
    &&& usage.cached_input == count_at(value.at("input_tokens_details"@).at("cached_tokens"@))
    &&& usage.output == count_at(value.at("output_tokens"@))
    &&& usage.reasoning == count_at(value.at("output_tokens_details"@).at("reasoning_tokens"@))
}

/// The text at a field, or nothing.
fn text_at(value: &Json, key: &str) -> (text: String)
    ensures
        text@ == value@.at(key@).text_or_empty(),
{
    match value.get(key) {
        Some(field) => match field.as_str() {
            Some(text) => text.to_owned(),
            None => {
                let none = String::new();
                assert(none@ =~= Seq::<char>::empty());
                none
            },
        },
        None => {
            let none = String::new();
            assert(none@ =~= Seq::<char>::empty());
            none
        },
    }
}

/// A null in place of a field that is not there.
fn field<'a>(value: &'a Json, key: &str, null: &'a Json) -> (field: &'a Json)
    requires
        null@ == json::JsonView::Null,
    ensures
        field@ == value@.at(key@),
{
    match value.get(key) {
        Some(field) => field,
        None => null,
    }
}

fn count_of(value: &Json) -> (count: u64)
    ensures
        count == count_at(value@),
{
    match value.as_u64() {
        Some(count) => count,
        None => 0,
    }
}

/// The tokens that an answer took.
pub fn usage(value: &Json) -> (usage: Usage)
    ensures
        is_usage(usage, value@),
{
    let null = Json::Null;
    let input_details = field(value, "input_tokens_details", &null);
    let output_details = field(value, "output_tokens_details", &null);
    Usage {
        input: count_of(field(value, "input_tokens", &null)),
        cached_input: count_of(field(input_details, "cached_tokens", &null)),
        output: count_of(field(value, "output_tokens", &null)),
        reasoning: count_of(field(output_details, "reasoning_tokens", &null)),
    }
}

fn message_of(parts: &Vec<Json>) -> (text: String)
    ensures
        text@ == message_text(json::views(parts@)),
{
    let ghost all = json::views(parts@);
    let null = Json::Null;
    let mut text = String::new();
    let mut i: usize = 0;
    assert(all.take(0) =~= Seq::<json::JsonView>::empty());
    while i < parts.len()
        invariant
            i <= parts@.len(),
            all == json::views(parts@),
            null@ == json::JsonView::Null,
            text@ == message_text(all.take(i as int)),
        decreases parts@.len() - i,
    {
        let ghost now = all.take(i + 1);
        assert(now.drop_last() =~= all.take(i as int));
        assert(now.last() == parts@[i as int]@);
        let is_text = match field(&parts[i], "type", &null).as_str() {
            Some(kind) => same(kind, "output_text"),
            None => false,
        };
        if is_text {
            text.append(text_at(&parts[i], "text").as_str());
        }
        i += 1;
    }
    assert(all.take(i as int) =~= all);
    text
}

fn summary_of(parts: Option<&Vec<Json>>) -> (summary: Vec<String>)
    ensures
        strings::texts(summary@) == summary_texts(
            match parts {
                Some(parts) => Some(json::views(parts@)),
                None => None,
            },
        ),
{
    let mut summary: Vec<String> = Vec::new();
    assert(strings::texts(summary@) =~= Seq::<Seq<char>>::empty());
    match parts {
        Some(parts) => {
            let ghost wanted = summary_texts(Some(json::views(parts@)));
            let mut i: usize = 0;
            assert(strings::texts(summary@) =~= wanted.take(0));
            while i < parts.len()
                invariant
                    i <= parts@.len(),
                    wanted == summary_texts(Some(json::views(parts@))),
                    strings::texts(summary@) == wanted.take(i as int),
                decreases parts@.len() - i,
            {
                assert(json::views(parts@)[i as int] == parts@[i as int]@);
                let text = text_at(&parts[i], "text");
                let ghost before = strings::texts(summary@);
                summary.push(text);
                assert(strings::texts(summary@) =~= before.push(text@));
                i += 1;
                assert(strings::texts(summary@) =~= wanted.take(i as int));
            }
            assert(wanted.take(i as int) =~= wanted);
        },
        None => {},
    }
    summary
}

/// The item that the model put out.
pub fn output_item(item: &Json) -> (output: Option<Item>)
    ensures
        match output {
            Some(output) => item_of(item@) == Some(output@),
            None => item_of(item@) is None,
        },
{
    let null = Json::Null;
    proof {
        reveal_strlit("message");
        reveal_strlit("reasoning");
        reveal_strlit("function_call");
    }
    let kind = match field(item, "type", &null).as_str() {
        Some(kind) => kind,
        None => {
            return None;
        },
    };
    if same(kind, "message") {
        match field(item, "content", &null).as_array() {
            Some(parts) => Some(Item::Assistant { text: message_of(parts) }),
            None => None,
        }
    } else if same(kind, "reasoning") {
        let encrypted = match field(item, "encrypted_content", &null).as_str() {
            Some(state) => Some(state.to_owned()),
            None => None,
        };
        let summary = summary_of(field(item, "summary", &null).as_array());
        Some(Item::Reasoning { summary, encrypted })
    } else if same(kind, "function_call") {
        Some(
            Item::ToolCall {
                call_id: text_at(item, "call_id"),
                name: text_at(item, "name"),
                arguments: text_at(item, "arguments"),
            },
        )
    } else {
        None
    }
}

// ---- Streams ----

/// How an answer ended.
#[derive(Clone, Debug, PartialEq, Eq)]
pub enum End {
    Completed(Usage),
    Failed(String),
}

/// What one event of a stream means.
pub ghost enum Meaning {
    /// Text of the answer as it comes.
    Delta(Seq<char>),
    /// An item is complete; one that transcripts do not hold adds nothing.
    Output(Option<agent::ItemView>),
    /// The answer is complete; its usage is here.
    Completed(json::JsonView),
    Failed(Seq<char>),
    Ignored,
}

/// Why an answer failed.
pub open spec fn failure_text(event: json::JsonView) -> Seq<char> {
    match event.at("response"@).at("error"@).at("message"@).text() {
        Some(text) => text,
        None => match event.at("message"@).text() {
            Some(text) => text,
            None => "response failed"@,
        },
    }
}

pub open spec fn meaning(event: json::JsonView) -> Meaning {
    let kind = event.at("type"@).text_or_empty();
    if kind == "response.output_text.delta"@ {
        Meaning::Delta(event.at("delta"@).text_or_empty())
    } else if kind == "response.output_item.done"@ {
        Meaning::Output(item_of(event.at("item"@)))
    } else if kind == "response.completed"@ || kind == "response.incomplete"@ {
        Meaning::Completed(event.at("response"@).at("usage"@))
    } else if kind == "response.failed"@ || kind == "error"@ {
        Meaning::Failed(failure_text(event))
    } else {
        Meaning::Ignored
    }
}

/// An answer as far as it came.
pub ghost struct StreamView {
    pub items: Seq<agent::ItemView>,
    /// Everything that was streamed as text.
    pub deltas: Seq<Seq<char>>,
    /// The event that ended it.
    pub end: Option<json::JsonView>,
}

/// What an event adds to an answer. Nothing is added once it ended.
pub open spec fn heard(stream: StreamView, event: json::JsonView) -> StreamView {
    if stream.end is Some {
        stream
    } else {
        match meaning(event) {
            Meaning::Delta(text) => StreamView { deltas: stream.deltas.push(text), ..stream },
            Meaning::Output(Some(item)) => StreamView { items: stream.items.push(item), ..stream },
            Meaning::Output(None) => stream,
            Meaning::Completed(_) => StreamView { end: Some(event), ..stream },
            Meaning::Failed(_) => StreamView { end: Some(event), ..stream },
            Meaning::Ignored => stream,
        }
    }
}

/// What payloads add to an answer. One that is no JSON adds nothing.
pub open spec fn heard_all(stream: StreamView, payloads: Seq<Seq<char>>) -> StreamView
    decreases payloads.len(),
{
    if payloads.len() == 0 {
        stream
    } else {
        let before = heard_all(stream, payloads.drop_last());
        match json::parsed(payloads.last()) {
            Ok(event) => heard(before, event),
            Err(_) => before,
        }
    }
}

/// Whether an answer ended as its last event says.
pub open spec fn is_end(end: Option<End>, event: Option<json::JsonView>) -> bool {
    match event {
        None => end is None,
        Some(event) => match meaning(event) {
            Meaning::Completed(value) => end matches Some(End::Completed(usage)) && is_usage(
                usage,
                value,
            ),
            Meaning::Failed(text) => end matches Some(End::Failed(error)) && error@ == text,
            _ => false,
        },
    }
}

/// An answer that comes in.
pub struct Stream {
    parser: Parser,
    items: Vec<Item>,
    end: Option<End>,
    told: Ghost<StreamView>,
}

impl Stream {
    /// The beginning of an event that is not complete.
    pub closed spec fn pending(self) -> Seq<u8> {
        self.parser@
    }

    /// What came so far.
    pub closed spec fn told(self) -> StreamView {
        self.told@
    }

    /// What is held is what came.
    pub closed spec fn well_formed(self) -> bool {
        agent::item_views(self.items@) == self.told@.items && is_end(self.end, self.told@.end)
    }

    pub fn new() -> (stream: Self)
        ensures
            stream.well_formed(),
            stream.pending() == Seq::<u8>::empty(),
            stream.told() == (StreamView {
                items: Seq::empty(),
                deltas: Seq::empty(),
                end: None,
            }),
    {
        let items: Vec<Item> = Vec::new();
        assert(agent::item_views(items@) =~= Seq::<agent::ItemView>::empty());
        Stream {
            parser: Parser::default(),
            items,
            end: None,
            told: Ghost(StreamView { items: Seq::empty(), deltas: Seq::empty(), end: None }),
        }
    }

    /// Takes one event. Returns text that is to be streamed.
    pub fn hear(&mut self, event: &Json) -> (delta: Option<String>)
        requires
            old(self).well_formed(),
        ensures
            final(self).well_formed(),
            final(self).pending() == old(self).pending(),
            final(self).told() == heard(old(self).told(), event@),
            final(self).told().deltas == (match delta {
                Some(text) => old(self).told().deltas.push(text@),
                None => old(self).told().deltas,
            }),
    {
        let ghost before = self.told@;
        if self.end.is_some() {
            return None;
        }
        let null = Json::Null;
        let kind = text_at(event, "type");
        self.told = Ghost(heard(before, event@));
        if same(kind.as_str(), "response.output_text.delta") {
            return Some(text_at(event, "delta"));
        }
        if same(kind.as_str(), "response.output_item.done") {
            match output_item(field(event, "item", &null)) {
                Some(item) => {
                    let ghost held = self.items@;
                    self.items.push(item);
                    assert(agent::item_views(self.items@) =~= agent::item_views(held).push(item@));
                },
                None => {},
            }
            return None;
        }
        if same(kind.as_str(), "response.completed") || same(
            kind.as_str(),
            "response.incomplete",
        ) {
            let response = field(event, "response", &null);
            self.end = Some(End::Completed(usage(field(response, "usage", &null))));
            return None;
        }
        if same(kind.as_str(), "response.failed") || same(kind.as_str(), "error") {
            let response = field(event, "response", &null);
            let error = field(response, "error", &null);
            let message = match field(error, "message", &null).as_str() {
                Some(text) => text.to_owned(),
                None => match field(event, "message", &null).as_str() {
                    Some(text) => text.to_owned(),
                    None => "response failed".to_owned(),
                },
            };
            self.end = Some(End::Failed(message));
        }
        None
    }

    /// Takes the next bytes of the answer. Returns the texts that are to be streamed.
    pub fn feed(&mut self, chunk: &[u8]) -> (deltas: Vec<String>)
        requires
            old(self).well_formed(),
        ensures
            final(self).well_formed(),
            final(self).pending() == sse::unfinished(old(self).pending() + chunk@),
            final(self).told() == heard_all(
                old(self).told(),
                sse::events(old(self).pending() + chunk@),
            ),
            final(self).told().deltas == old(self).told().deltas + strings::texts(deltas@),
    {
        let ghost before = self.told@;
        let found = self.parser.feed(chunk);
        let ghost payloads = strings::texts(found@);
        let ghost held = self.parser@;
        let mut deltas: Vec<String> = Vec::new();
        let mut i: usize = 0;
        assert(payloads.take(0) =~= Seq::<Seq<char>>::empty());
        assert(before.deltas + strings::texts(deltas@) =~= before.deltas);
        while i < found.len()
            invariant
                i <= found@.len(),
                payloads == strings::texts(found@),
                self.well_formed(),
                self.parser@ == held,
                self.told@ == heard_all(before, payloads.take(i as int)),
                self.told@.deltas == before.deltas + strings::texts(deltas@),
            decreases found@.len() - i,
        {
            let ghost now = payloads.take(i + 1);
            assert(now.drop_last() =~= payloads.take(i as int));
            assert(now.last() == found@[i as int]@);
            match parse(found[i].as_str()) {
                Ok(event) => {
                    let ghost told = strings::texts(deltas@);
                    match self.hear(&event) {
                        Some(text) => {
                            deltas.push(text);
                            assert(strings::texts(deltas@) =~= told.push(text@));
                            assert(before.deltas + told.push(text@) =~= (before.deltas
                                + told).push(text@));
                        },
                        None => {},
                    }
                },
                Err(_) => {},
            }
            i += 1;
        }
        assert(payloads.take(i as int) =~= payloads);
        deltas
    }

    /// Whether the answer ended.
    pub fn ended(&self) -> (ended: bool)
        requires
            self.well_formed(),
        ensures
            ended == (self.told().end is Some),
    {
        self.end.is_some()
    }

    /// The answer, once nothing more comes: its items and usage, or why there is none.
    pub fn finish(self) -> (result: Result<Completion, Failure>)
        requires
            self.well_formed(),
        ensures
            match self.told().end {
                None => result matches Err(failure) && failure.retry && failure.message@
                    == "stream ended before the response completed"@,
                Some(event) => match meaning(event) {
                    Meaning::Completed(value) => result matches Ok(completion)
                        && agent::item_views(completion.items@) == self.told().items && is_usage(
                        completion.usage,
                        value,
                    ),
                    Meaning::Failed(text) => result matches Err(failure) && !failure.retry
                        && failure.message@ == text,
                    _ => true,
                },
            },
    {
        match self.end {
            Some(End::Completed(usage)) => Ok(Completion { items: self.items, usage }),
            Some(End::Failed(message)) => Err(Failure { retry: false, message }),
            None => Err(
                Failure {
                    retry: true,
                    message: "stream ended before the response completed".to_owned(),
                },
            ),
        }
    }
}

/// Payloads add up.
proof fn lemma_heard_all(stream: StreamView, first: Seq<Seq<char>>, second: Seq<Seq<char>>)
    ensures
        heard_all(stream, first + second) == heard_all(heard_all(stream, first), second),
    decreases second.len(),
{
    if second.len() == 0 {
        assert(first + second =~= first);
    } else {
        assert((first + second).drop_last() =~= first + second.drop_last());
        assert((first + second).last() == second.last());
        lemma_heard_all(stream, first, second.drop_last());
    }
}

/// Payloads are heard one after the other, and one that is no JSON adds nothing.
pub proof fn law_payloads_are_heard_in_order(
    stream: StreamView,
    before: Seq<Seq<char>>,
    payload: Seq<char>,
    after: Seq<Seq<char>>,
)
    ensures
        heard_all(stream, before + seq![payload] + after) == heard_all(
            match json::parsed(payload) {
                Ok(event) => heard(heard_all(stream, before), event),
                Err(_) => heard_all(stream, before),
            },
            after,
        ),
        heard_all(stream, Seq::empty()) == stream,
{
    let first = before + seq![payload];
    assert(first.drop_last() =~= before);
    assert(first.last() == payload);
    lemma_heard_all(stream, first, after);
}

/// An answer is the same however its bytes are cut into chunks.
pub proof fn law_answers_do_not_depend_on_chunks(stream: StreamView, bytes: Seq<u8>, more: Seq<u8>)
    ensures
        heard_all(stream, sse::events(bytes + more)) == heard_all(
            heard_all(stream, sse::events(bytes)),
            sse::events(sse::unfinished(bytes) + more),
        ),
{
    sse::law_chunks_do_not_matter(bytes, more);
    lemma_heard_all(stream, sse::events(bytes), sse::events(sse::unfinished(bytes) + more));
}

/// Nothing is added to an answer after the event that ended it.
pub proof fn law_the_end_is_final(stream: StreamView, payloads: Seq<Seq<char>>)
    requires
        stream.end is Some,
    ensures
        heard_all(stream, payloads) == stream,
    decreases payloads.len(),
{
    if payloads.len() > 0 {
        law_the_end_is_final(stream, payloads.drop_last());
    }
}

/// What carries reasoning back: an item with encrypted state is shown to the model as it came.
pub proof fn law_reasoning_is_carried_back(item: json::JsonView)
    requires
        item_of(item) matches Some(agent::ItemView::Reasoning { encrypted: Some(_), .. }),
    ensures
        ({
            let shown = input_of(item_of(item)->0)->0;
            &&& input_of(item_of(item)->0) is Some
            &&& shown.at("encrypted_content"@).text() == item.at("encrypted_content"@).text()
            &&& shown.at("type"@) == item.at("type"@)
        }),
{
    reveal_strlit("type");
    reveal_strlit("summary");
    reveal_strlit("encrypted_content");
    assert("type"@.len() == 4 && "summary"@.len() == 7 && "encrypted_content"@.len() == 17);
    let held = item_of(item)->0;
    let shown = input_of(held)->0;
    let fields = shown->Object_0;
    reveal_with_fuel(json::member, 4);
    assert(fields[0].0 == "type"@);
    assert(fields[1].0 == "summary"@);
    assert(fields[2].0 == "encrypted_content"@);
}

/// An item that the model put out is the same item when it is shown back and read again, where it
/// is shown at all.
pub proof fn law_items_come_back(item: json::JsonView)
    requires
        item_of(item) is Some,
        input_of(item_of(item)->0) is Some,
    ensures
        item_of(input_of(item_of(item)->0)->0) == item_of(item),
{
    reveal_strlit("type");
    reveal_strlit("role");
    reveal_strlit("content");
    reveal_strlit("text");
    reveal_strlit("summary");
    reveal_strlit("encrypted_content");
    reveal_strlit("call_id");
    reveal_strlit("name");
    reveal_strlit("arguments");
    reveal_strlit("message");
    reveal_strlit("reasoning");
    reveal_strlit("function_call");
    assert("type"@[1] == 'y' && "text"@[1] == 'e' && "name"@[1] == 'a');
    reveal_with_fuel(json::member, 5);
    let held = item_of(item)->0;
    let shown = input_of(held)->0;
    let fields = shown->Object_0;
    assert(fields[0].0 == "type"@);
    match held {
        agent::ItemView::Assistant { text } => {
            let parts = seq![text_part("output_text"@, text)];
            assert(fields[1].0 == "role"@);
            assert(fields[2] == ("content"@, json::JsonView::List(parts)));
            lemma_part("output_text"@, text);
            assert(parts.drop_last() =~= Seq::<json::JsonView>::empty());
            assert(message_text(parts.drop_last()) =~= Seq::<char>::empty());
            assert(message_text(parts) =~= text);
        },
        agent::ItemView::Reasoning { summary, encrypted } => {
            let parts = summary_parts(summary);
            assert(fields[1] == ("summary"@, json::JsonView::List(parts)));
            assert(fields[2].0 == "encrypted_content"@);
            assert forall|i: int| #![trigger parts[i]] 0 <= i < parts.len() implies parts[i].at(
                "text"@,
            ).text_or_empty() == summary[i] by {
                lemma_part("summary_text"@, summary[i]);
            }
            assert(summary_texts(Some(parts)) =~= summary);
        },
        agent::ItemView::ToolCall { .. } => {
            assert(fields[1].0 == "call_id"@);
            assert(fields[2].0 == "name"@);
            assert(fields[3].0 == "arguments"@);
        },
        _ => {},
    }
}

/// What a part of a text holds.
proof fn lemma_part(kind: Seq<char>, text: Seq<char>)
    ensures
        text_part(kind, text).at("type"@) == json::JsonView::Text(kind),
        text_part(kind, text).at("text"@) == json::JsonView::Text(text),
{
    reveal_strlit("type");
    reveal_strlit("text");
    reveal_with_fuel(json::member, 3);
    assert("type"@[1] == 'y' && "text"@[1] == 'e');
    let fields = text_part(kind, text)->Object_0;
    assert(fields[0].0 == "type"@);
    assert(fields[1].0 == "text"@);
}

/// Each part of a request is found in the body under its own name.
pub proof fn law_a_body_holds_the_request(request: Request, store: bool)
    ensures
        ({
            let body = body_of(request, store);
            &&& body.get("model"@) == Some(json::JsonView::Text(request.model@))
            &&& body.get("instructions"@) == Some(json::JsonView::Text(request.system@))
            &&& body.get("prompt_cache_key"@) == Some(json::JsonView::Text(request.agent@))
            &&& body.get("store"@) == Some(json::JsonView::Bool(store))
            &&& body.get("stream"@) == Some(json::JsonView::Bool(true))
            &&& body.get("parallel_tool_calls"@) == Some(json::JsonView::Bool(true))
            &&& body.get("tool_choice"@) == Some(json::JsonView::Text("auto"@))
            &&& body.get("input"@) == Some(
                json::JsonView::List(inputs_of(agent::item_views(request.items@))),
            )
            &&& body.at("tools"@).list() matches Some(tools) && tools.len() == request.tools@.len()
            &&& match *request.reasoning_effort {
                Some(effort) => body.at("reasoning"@).get("effort"@) == Some(
                    json::JsonView::Text(effort@),
                ) && body.at("reasoning"@).get("summary"@) == Some(json::JsonView::Text("auto"@)),
                None => body.get("reasoning"@) is None,
            }
            &&& if store {
                body.get("include"@) is None
            } else {
                body.at("include"@).list() == Some(
                    seq![json::JsonView::Text("reasoning.encrypted_content"@)],
                )
            }
        }),
        forall|i: int| #![trigger request.tools@[i]]
            0 <= i < request.tools@.len() ==> {
                let told = body_of(request, store).at("tools"@).list()->0[i];
                let tool = request.tools@[i];
                &&& told.get("type"@) == Some(json::JsonView::Text("function"@))
                &&& told.get("name"@) == Some(json::JsonView::Text(tool.name@))
                &&& told.get("description"@) == Some(json::JsonView::Text(tool.description@))
                &&& told.get("parameters"@) == Some(tool.parameters@)
                &&& told.get("strict"@) == Some(json::JsonView::Bool(false))
            },
{
    let fields = body_of(request, store)->Object_0;
    let count = fields.len() as int;
    lemma_body_keys();
    assert(fields[0].0 == "model"@);
    assert(fields[1].0 == "instructions"@);
    assert(fields[2].0 == "input"@);
    assert(fields[3].0 == "tools"@);
    assert(fields[4].0 == "tool_choice"@);
    assert(fields[5].0 == "parallel_tool_calls"@);
    assert(fields[6].0 == "stream"@);
    assert(fields[7].0 == "store"@);
    assert(fields[8].0 == "prompt_cache_key"@);
    assert(request.reasoning_effort is Some ==> fields[9].0 == "reasoning"@);
    assert(!store ==> fields[count - 1].0 == "include"@);
    json::law_a_field_is_found_under_its_name(fields, "model"@, 0);
    json::law_a_field_is_found_under_its_name(fields, "instructions"@, 1);
    json::law_a_field_is_found_under_its_name(fields, "input"@, 2);
    json::law_a_field_is_found_under_its_name(fields, "tools"@, 3);
    json::law_a_field_is_found_under_its_name(fields, "tool_choice"@, 4);
    json::law_a_field_is_found_under_its_name(fields, "parallel_tool_calls"@, 5);
    json::law_a_field_is_found_under_its_name(fields, "stream"@, 6);
    json::law_a_field_is_found_under_its_name(fields, "store"@, 7);
    json::law_a_field_is_found_under_its_name(fields, "prompt_cache_key"@, 8);
    if request.reasoning_effort is Some {
        json::law_a_field_is_found_under_its_name(fields, "reasoning"@, 9);
        let parts = fields[9].1->Object_0;
        assert(parts[0].0 == "effort"@);
        assert(parts[1].0 == "summary"@);
        json::law_a_field_is_found_under_its_name(parts, "effort"@, 0);
        json::law_a_field_is_found_under_its_name(parts, "summary"@, 1);
    } else {
        json::law_a_field_is_found_under_its_name(fields, "reasoning"@, count);
    }
    if store {
        json::law_a_field_is_found_under_its_name(fields, "include"@, count);
    } else {
        json::law_a_field_is_found_under_its_name(fields, "include"@, count - 1);
    }
    assert forall|i: int| #![trigger request.tools@[i]] 0 <= i < request.tools@.len() implies {
        let told = body_of(request, store).at("tools"@).list()->0[i];
        let tool = request.tools@[i];
        &&& told.get("type"@) == Some(json::JsonView::Text("function"@))
        &&& told.get("name"@) == Some(json::JsonView::Text(tool.name@))
        &&& told.get("description"@) == Some(json::JsonView::Text(tool.description@))
        &&& told.get("parameters"@) == Some(tool.parameters@)
        &&& told.get("strict"@) == Some(json::JsonView::Bool(false))
    } by {
        let told = tool_json(request.tools@[i]@)->Object_0;
        assert(told[0].0 == "type"@);
        assert(told[1].0 == "name"@);
        assert(told[2].0 == "description"@);
        assert(told[3].0 == "parameters"@);
        assert(told[4].0 == "strict"@);
        json::law_a_field_is_found_under_its_name(told, "type"@, 0);
        json::law_a_field_is_found_under_its_name(told, "name"@, 1);
        json::law_a_field_is_found_under_its_name(told, "description"@, 2);
        json::law_a_field_is_found_under_its_name(told, "parameters"@, 3);
        json::law_a_field_is_found_under_its_name(told, "strict"@, 4);
    }
}

/// The names that stand beside each other in a body differ.
proof fn lemma_body_keys()
    ensures
        "model"@.len() == 5 && "model"@[0] == 'm',
        "input"@.len() == 5 && "input"@[0] == 'i',
        "tools"@.len() == 5 && "tools"@[0] == 't',
        "store"@.len() == 5 && "store"@[0] == 's',
        "stream"@.len() == 6,
        "effort"@.len() == 6,
        "strict"@.len() == 6,
        "summary"@.len() == 7,
        "include"@.len() == 7,
        "reasoning"@.len() == 9,
        "parameters"@.len() == 10,
        "tool_choice"@.len() == 11,
        "description"@.len() == 11,
        "instructions"@.len() == 12,
        "prompt_cache_key"@.len() == 16,
        "parallel_tool_calls"@.len() == 19,
        "type"@.len() == 4 && "type"@[0] == 't' && "type"@[1] == 'y',
        "role"@.len() == 4 && "role"@[0] == 'r',
        "text"@.len() == 4 && "text"@[0] == 't' && "text"@[1] == 'e',
        "name"@.len() == 4 && "name"@[0] == 'n',
        "output"@.len() == 6,
        "content"@.len() == 7,
        "call_id"@.len() == 7,
        "arguments"@.len() == 9,
        "image_url"@.len() == 9,
        "encrypted_content"@.len() == 17,
{
    reveal_strlit("model");
    reveal_strlit("input");
    reveal_strlit("tools");
    reveal_strlit("store");
    reveal_strlit("stream");
    reveal_strlit("effort");
    reveal_strlit("strict");
    reveal_strlit("summary");
    reveal_strlit("include");
    reveal_strlit("reasoning");
    reveal_strlit("parameters");
    reveal_strlit("tool_choice");
    reveal_strlit("description");
    reveal_strlit("instructions");
    reveal_strlit("prompt_cache_key");
    reveal_strlit("parallel_tool_calls");
    reveal_strlit("type");
    reveal_strlit("role");
    reveal_strlit("text");
    reveal_strlit("name");
    reveal_strlit("output");
    reveal_strlit("content");
    reveal_strlit("call_id");
    reveal_strlit("arguments");
    reveal_strlit("image_url");
    reveal_strlit("encrypted_content");
}

/// The transcript is shown to the model item by item, in order. Only reasoning whose state the
/// model did not hand over is left out.
pub proof fn law_the_model_is_shown_the_transcript_in_order(
    before: Seq<agent::ItemView>,
    item: agent::ItemView,
    after: Seq<agent::ItemView>,
)
    ensures
        (item matches agent::ItemView::Reasoning { encrypted: None, .. }) ==> inputs_of(
            before + seq![item] + after,
        ) == inputs_of(before) + inputs_of(after),
        !(item matches agent::ItemView::Reasoning { encrypted: None, .. }) ==> exists|
            input: json::JsonView,
        |
            input_of(item) == Some(input) && inputs_of(before + seq![item] + after) == inputs_of(
                before,
            ) + #[trigger] seq![input] + inputs_of(after),
    decreases after.len(),
{
    let all = before + seq![item] + after;
    if after.len() == 0 {
        assert(all.drop_last() =~= before);
        assert(all.last() == item);
        assert(inputs_of(after) =~= Seq::<json::JsonView>::empty());
        match input_of(item) {
            Some(input) => {
                assert(inputs_of(all) =~= inputs_of(before) + seq![input] + inputs_of(after));
            },
            None => {
                assert(inputs_of(all) =~= inputs_of(before) + inputs_of(after));
            },
        }
    } else {
        let rest = after.drop_last();
        assert(all.drop_last() =~= before + seq![item] + rest);
        assert(all.last() == after.last());
        law_the_model_is_shown_the_transcript_in_order(before, item, rest);
        match input_of(item) {
            Some(input) => {
                assert(inputs_of(all.drop_last()) == inputs_of(before) + seq![input] + inputs_of(
                    rest,
                ));
                assert(inputs_of(all) =~= inputs_of(before) + seq![input] + inputs_of(after));
            },
            None => {
                assert(inputs_of(all) =~= inputs_of(before) + inputs_of(after));
            },
        }
    }
}

/// What the model is shown of an item names who it is from and holds what the item holds.
pub proof fn law_what_is_shown_of_an_item_holds_the_item(item: agent::ItemView)
    ensures
        match item {
            agent::ItemView::Input { from, text } => {
                let said = input_of(item)->0.at("content"@).list()->0;
                &&& input_of(item)->0.at("role"@) == json::JsonView::Text("user"@)
                &&& said.len() == 1 && said[0].at("type"@) == json::JsonView::Text("input_text"@)
                &&& from == "user"@ ==> said[0].at("text"@) == json::JsonView::Text(text)
                &&& from != "user"@ ==> said[0].at("text"@) == json::JsonView::Text(
                    "[Message from agent "@ + from + "]\n"@ + text,
                )
            },
            agent::ItemView::Assistant { text } => {
                let said = input_of(item)->0.at("content"@).list()->0;
                &&& input_of(item)->0.at("type"@) == json::JsonView::Text("message"@)
                &&& input_of(item)->0.at("role"@) == json::JsonView::Text("assistant"@)
                &&& said.len() == 1 && said[0].at("type"@) == json::JsonView::Text("output_text"@)
                &&& said[0].at("text"@) == json::JsonView::Text(text)
            },
            agent::ItemView::Reasoning { summary, encrypted: Some(state) } => {
                let said = input_of(item)->0.at("summary"@).list()->0;
                &&& input_of(item)->0.at("type"@) == json::JsonView::Text("reasoning"@)
                &&& input_of(item)->0.at("encrypted_content"@) == json::JsonView::Text(state)
                &&& said.len() == summary.len()
                &&& forall|i: int| #![trigger summary[i]]
                    0 <= i < summary.len() ==> said[i].at("text"@) == json::JsonView::Text(
                        summary[i],
                    ) && said[i].at("type"@) == json::JsonView::Text("summary_text"@)
            },
            agent::ItemView::Reasoning { encrypted: None, .. } => input_of(item) is None,
            agent::ItemView::ToolCall { call_id, name, arguments } => {
                &&& input_of(item)->0.at("type"@) == json::JsonView::Text("function_call"@)
                &&& input_of(item)->0.at("call_id"@) == json::JsonView::Text(call_id)
                &&& input_of(item)->0.at("name"@) == json::JsonView::Text(name)
                &&& input_of(item)->0.at("arguments"@) == json::JsonView::Text(arguments)
            },
            agent::ItemView::ToolResult { call_id, output } => {
                let said = input_of(item)->0.at("output"@);
                &&& input_of(item)->0.at("type"@) == json::JsonView::Text("function_call_output"@)
                &&& input_of(item)->0.at("call_id"@) == json::JsonView::Text(call_id)
                &&& output.content.len() == 1 && output.content[0] is Text ==> said
                    == json::JsonView::Text(output.content[0]->Text_0)
                &&& (exists|i: int|
                    0 <= i < output.content.len() && #[trigger] output.content[i] is Image)
                    ==> (said.list() matches Some(parts) && parts.len() == output.content.len())
                &&& said.list() matches Some(parts) ==> forall|i: int|
                    #![trigger parts[i]]
                    0 <= i < parts.len() ==> match output.content[i] {
                        tools::ContentView::Text(text) => parts[i].at("type"@)
                            == json::JsonView::Text("input_text"@) && parts[i].at("text"@)
                            == json::JsonView::Text(text),
                        tools::ContentView::Image { mime, data } => parts[i].at("type"@)
                            == json::JsonView::Text("input_image"@) && parts[i].at("image_url"@)
                            == json::JsonView::Text("data:"@ + mime + ";base64,"@ + data),
                    }
            },
            agent::ItemView::Compaction { summary } => {
                let said = input_of(item)->0.at("content"@).list()->0;
                &&& input_of(item)->0.at("role"@) == json::JsonView::Text("user"@)
                &&& said.len() == 1 && said[0].at("type"@) == json::JsonView::Text("input_text"@)
                &&& said[0].at("text"@) == json::JsonView::Text(
                    "The conversation so far was compacted. Summary:\n\n"@ + summary
                        + "\n\nContinue from here."@,
                )
            },
        },
{
    lemma_body_keys();
    reveal_with_fuel(json::member, 5);
    let fields = input_of(item)->0->Object_0;
    match item {
        agent::ItemView::Input { from, text } => {
            assert(fields[0].0 == "role"@);
            assert(fields[1].0 == "content"@);
            lemma_part("input_text"@, mail_text(from, text));
        },
        agent::ItemView::Assistant { text } => {
            assert(fields[0].0 == "type"@);
            assert(fields[1].0 == "role"@);
            assert(fields[2].0 == "content"@);
            lemma_part("output_text"@, text);
        },
        agent::ItemView::Reasoning { summary, encrypted } => {
            assert(encrypted is Some ==> fields[0].0 == "type"@ && fields[1].0 == "summary"@
                && fields[2].0 == "encrypted_content"@);
            assert forall|i: int| #![trigger summary[i]] 0 <= i < summary.len() implies
                summary_parts(summary)[i].at("text"@) == json::JsonView::Text(summary[i])
                && summary_parts(summary)[i].at("type"@) == json::JsonView::Text(
                "summary_text"@,
            ) by {
                lemma_part("summary_text"@, summary[i]);
            }
        },
        agent::ItemView::ToolCall { .. } => {
            assert(fields[0].0 == "type"@);
            assert(fields[1].0 == "call_id"@);
            assert(fields[2].0 == "name"@);
            assert(fields[3].0 == "arguments"@);
        },
        agent::ItemView::ToolResult { output, .. } => {
            let content = output.content;
            assert(fields[0].0 == "type"@);
            assert(fields[1].0 == "call_id"@);
            assert(fields[2].0 == "output"@);
            if content.len() == 1 && content[0] is Text {
                assert(content.drop_last() =~= Seq::<tools::ContentView>::empty());
                assert(plain_text(content.drop_last()) =~= Seq::<char>::empty());
                assert(plain_text(content) =~= content[0]->Text_0);
            }
            assert forall|i: int| 0 <= i < content.len() implies match #[trigger] content[i] {
                tools::ContentView::Text(text) => content_part(content[i]).at("type"@)
                    == json::JsonView::Text("input_text"@) && content_part(content[i]).at("text"@)
                    == json::JsonView::Text(text),
                tools::ContentView::Image { mime, data } => content_part(content[i]).at("type"@)
                    == json::JsonView::Text("input_image"@) && content_part(content[i]).at(
                    "image_url"@,
                ) == json::JsonView::Text("data:"@ + mime + ";base64,"@ + data),
            } by {
                match content[i] {
                    tools::ContentView::Text(text) => lemma_part("input_text"@, text),
                    tools::ContentView::Image { .. } => {
                        let part = content_part(content[i])->Object_0;
                        assert(part[0].0 == "type"@);
                        assert(part[1].0 == "image_url"@);
                    },
                }
            }
        },
        agent::ItemView::Compaction { summary } => {
            assert(fields[0].0 == "role"@);
            assert(fields[1].0 == "content"@);
            lemma_part("input_text"@, compaction_text(summary));
        },
    }
}

/// A message that the model puts out holds the texts of its parts in a row, and of no part that
/// is not text.
pub proof fn law_a_message_holds_its_texts(
    parts: Seq<json::JsonView>,
    part: json::JsonView,
    text: Seq<char>,
)
    ensures
        message_text(Seq::empty()) == Seq::<char>::empty(),
        part.get("type"@) == Some(json::JsonView::Text("output_text"@)) && part.get("text"@)
            == Some(json::JsonView::Text(text)) ==> message_text(parts.push(part)) == message_text(
            parts,
        ) + text,
        part.at("type"@).text() is Some && part.at("type"@).text()->0 != "output_text"@
            ==> message_text(parts.push(part)) == message_text(parts),
{
    assert(parts.push(part).drop_last() =~= parts);
    assert(parts.push(part).last() == part);
}

/// What the model puts out becomes an item that holds the same under the same names.
pub proof fn law_an_item_holds_what_the_model_put_out(item: json::JsonView, kind: Seq<char>)
    requires
        item.get("type"@) == Some(json::JsonView::Text(kind)),
    ensures
        kind == "function_call"@ ==> {
            &&& item_of(item) is Some && item_of(item)->0 is ToolCall
            &&& forall|text: Seq<char>|
                item.get("call_id"@) == Some(#[trigger] json_text(text)) ==> item_of(
                    item,
                )->0->ToolCall_call_id == text
            &&& forall|text: Seq<char>|
                item.get("name"@) == Some(#[trigger] json_text(text)) ==> item_of(item)->0->name
                    == text
            &&& forall|text: Seq<char>|
                item.get("arguments"@) == Some(#[trigger] json_text(text)) ==> item_of(
                    item,
                )->0->arguments == text
        },
        kind == "reasoning"@ ==> {
            &&& item_of(item) is Some && item_of(item)->0 is Reasoning
            &&& forall|text: Seq<char>|
                item.get("encrypted_content"@) == Some(#[trigger] json_text(text)) ==> item_of(
                    item,
                )->0->encrypted == Some(text)
            &&& item.get("encrypted_content"@) is None ==> item_of(item)->0->encrypted is None
        },
        kind == "message"@ && item.at("content"@).list() is Some ==> item_of(item) == Some(
            agent::ItemView::Assistant { text: message_text(item.at("content"@).list()->0) },
        ),
        kind != "function_call"@ && kind != "reasoning"@ && kind != "message"@ ==> item_of(
            item,
        ) is None,
{
    lemma_kinds();
}

pub open spec fn json_text(text: Seq<char>) -> json::JsonView {
    json::JsonView::Text(text)
}

proof fn lemma_kinds()
    ensures
        "message"@.len() == 7,
        "reasoning"@.len() == 9,
        "function_call"@.len() == 13,
        "response.output_text.delta"@.len() == 26,
        "response.output_item.done"@.len() == 25,
        "response.completed"@.len() == 18,
        "response.incomplete"@.len() == 19,
        "response.failed"@.len() == 15,
        "error"@.len() == 5,
{
    reveal_strlit("message");
    reveal_strlit("reasoning");
    reveal_strlit("function_call");
    reveal_strlit("response.output_text.delta");
    reveal_strlit("response.output_item.done");
    reveal_strlit("response.completed");
    reveal_strlit("response.incomplete");
    reveal_strlit("response.failed");
    reveal_strlit("error");
}

/// An event adds to an answer what it says: text that streams, an item that is complete, the end
/// with what it took, or the end with the reason. Any other event adds nothing.
pub proof fn law_an_event_adds_what_it_says(
    stream: StreamView,
    event: json::JsonView,
    kind: Seq<char>,
    text: Seq<char>,
)
    requires
        stream.end is None,
        event.get("type"@) == Some(json::JsonView::Text(kind)),
    ensures
        ({
            let now = heard(stream, event);
            &&& kind == "response.output_text.delta"@ && event.get("delta"@) == Some(
                json::JsonView::Text(text),
            ) ==> now.deltas == stream.deltas.push(text) && now.items == stream.items && now.end
                is None
            &&& kind == "response.output_item.done"@ ==> now.deltas == stream.deltas && now.end
                is None && now.items == match item_of(event.at("item"@)) {
                Some(item) => stream.items.push(item),
                None => stream.items,
            }
            &&& kind == "response.completed"@ || kind == "response.incomplete"@ ==> now.deltas
                == stream.deltas && now.items == stream.items && now.end == Some(event) && meaning(
                event,
            ) == Meaning::Completed(event.at("response"@).at("usage"@))
            &&& kind == "response.failed"@ || kind == "error"@ ==> now.deltas == stream.deltas
                && now.items == stream.items && now.end == Some(event) && meaning(event) is Failed
            &&& kind == "response.failed"@ && event.at("response"@).at("error"@).get("message"@)
                == Some(json::JsonView::Text(text)) ==> meaning(event) == Meaning::Failed(text)
            &&& kind == "error"@ && event.get("response"@) is None && event.get("message"@) == Some(
                json::JsonView::Text(text),
            ) ==> meaning(event) == Meaning::Failed(text)
            &&& kind == "error"@ && event.get("response"@) is None && event.get("message"@) is None
                ==> meaning(event) == Meaning::Failed("response failed"@)
            &&& kind != "response.output_text.delta"@ && kind != "response.output_item.done"@
                && kind != "response.completed"@ && kind != "response.incomplete"@ && kind
                != "response.failed"@ && kind != "error"@ ==> now == stream
        }),
{
    lemma_kinds();
}

/// Texts of a result without images are shown as one text, one after the other.
pub proof fn law_texts_of_a_result_are_shown_in_a_row(
    before: Seq<tools::ContentView>,
    text: Seq<char>,
)
    requires
        forall|i: int| #![trigger before[i]] 0 <= i < before.len() ==> before[i] is Text,
    ensures
        output_json(before.push(tools::ContentView::Text(text))) == json::JsonView::Text(
            output_json(before)->Text_0 + text,
        ),
        before.len() == 0 ==> output_json(before) == json::JsonView::Text(Seq::empty()),
{
    let all = before.push(tools::ContentView::Text(text));
    assert(all.drop_last() =~= before);
    assert(is_plain(all)) by {
        assert forall|i: int| #![trigger all[i]] 0 <= i < all.len() implies all[i] is Text by {
            if i < before.len() {
                assert(all[i] == before[i]);
            }
        }
    }
}

/// Requests go below the endpoint, whatever slashes it ends in.
pub proof fn law_slashes_at_the_end_change_no_url(base: Seq<char>, count: nat)
    ensures
        base.len() == 0 || base.last() != '/' ==> without_end_slashes(
            base + Seq::new(count, |i: int| '/'),
        ) == base,
    decreases count,
{
    let all = base + Seq::new(count, |i: int| '/');
    if count == 0 {
        assert(all =~= base);
    } else {
        law_slashes_at_the_end_change_no_url(base, (count - 1) as nat);
        assert(all.drop_last() =~= base + Seq::new((count - 1) as nat, |i: int| '/'));
        assert(all.last() == '/');
    }
}

/// A request carries every header of the endpoint and every header of its authorization.
pub proof fn law_every_header_is_sent(config: ResponsesConfig, authorization: Authorization)
    ensures
        ({
            let sent = all_headers(config, authorization);
            let own = config.headers@.len();
            &&& sent.len() == own + authorization.headers@.len()
            &&& forall|i: int| #![trigger config.headers@[i]]
                0 <= i < own ==> sent[i] == (config.headers@[i].0@, config.headers@[i].1@)
            &&& forall|i: int| #![trigger authorization.headers@[i]]
                0 <= i < authorization.headers@.len() ==> sent[own + i] == (
                    authorization.headers@[i].0@,
                    authorization.headers@[i].1@,
                )
        }),
{
}

/// The tokens that an answer took are those that it names, each under its own name.
pub proof fn law_usage_is_what_the_answer_names(
    usage: Usage,
    value: json::JsonView,
    input: nat,
    cached: nat,
    output: nat,
    reasoning: nat,
)
    requires
        is_usage(usage, value),
        input <= u64::MAX && cached <= u64::MAX && output <= u64::MAX && reasoning <= u64::MAX,
        value.get("input_tokens"@) == Some(json::JsonView::Number(strings::decimal(input))),
        value.at("input_tokens_details"@).get("cached_tokens"@) == Some(
            json::JsonView::Number(strings::decimal(cached)),
        ),
        value.get("output_tokens"@) == Some(json::JsonView::Number(strings::decimal(output))),
        value.at("output_tokens_details"@).get("reasoning_tokens"@) == Some(
            json::JsonView::Number(strings::decimal(reasoning)),
        ),
    ensures
        usage.input == input,
        usage.cached_input == cached,
        usage.output == output,
        usage.reasoning == reasoning,
{
    strings::law_decimal_writes_the_number(input);
    strings::law_decimal_writes_the_number(cached);
    strings::law_decimal_writes_the_number(output);
    strings::law_decimal_writes_the_number(reasoning);
}

// ---- Failures and retries ----

/// Why a call failed, and whether it may be tried again.
#[derive(Clone, Debug, PartialEq, Eq)]
pub struct Failure {
    pub retry: bool,
    pub message: String,
}

pub open spec fn is_success(status: u16) -> bool {
    200 <= status < 300
}

/// Rate limits and server errors pass.
pub open spec fn is_transient(status: u16) -> bool {
    status == 429 || 500 <= status < 600
}

/// What an error's body says: the message in it, or all of it.
pub open spec fn said_in(body: Result<json::JsonView, Seq<char>>, text: Seq<char>) -> Seq<char> {
    match body {
        Ok(value) => match value.at("error"@).at("message"@).text() {
            Some(message) => message,
            None => text,
        },
        Err(_) => text,
    }
}

/// A failure tells the message that its body holds, and all of the body where it holds none.
pub proof fn law_a_failure_tells_the_message_in_its_body(
    body: Result<json::JsonView, Seq<char>>,
    text: Seq<char>,
    message: Seq<char>,
)
    ensures
        body is Ok && body->Ok_0.at("error"@).get("message"@) == Some(json::JsonView::Text(message))
            ==> said_in(body, text) == message,
        body is Err ==> said_in(body, text) == text,
        body is Ok && body->Ok_0.get("error"@) is None ==> said_in(body, text) == text,
{
}

/// Why a call failed, where its body reads as `body`.
pub fn status_failure_with(status: u16, text: &str, body: &Result<Json, String>) -> (failure:
    Failure)
    ensures
        failure.retry == is_transient(status),
        failure.message@ == strings::decimal(status as nat) + " "@ + said_in(
            match *body {
                Ok(value) => Ok(value@),
                Err(error) => Err(error@),
            },
            text@,
        ),
{
    let null = Json::Null;
    let said = match body {
        Ok(value) => {
            let error = field(value, "error", &null);
            match field(error, "message", &null).as_str() {
                Some(message) => message,
                None => text,
            }
        },
        Err(_) => text,
    };
    let mut message = number(status as u128);
    message.append(" ");
    message.append(said);
    Failure { retry: status == 429 || (500 <= status && status < 600), message }
}

/// Why a call failed that was answered with this status and body.
pub fn status_failure(status: u16, text: &str) -> (failure: Failure)
    ensures
        failure.retry == is_transient(status),
        failure.message@ == strings::decimal(status as nat) + " "@ + said_in(
            json::parsed(text@),
            text@,
        ),
{
    let body = parse(text);
    status_failure_with(status, text, &body)
}

/// Whether a status says that the answer follows.
pub fn succeeded(status: u16) -> (success: bool)
    ensures
        success == is_success(status),
{
    200 <= status && status < 300
}

/// Only rate limits and server errors pass, and no status that says that the answer follows does.
pub proof fn law_what_passes_is_no_success(status: u16)
    ensures
        is_transient(status) <==> status == 429 || status / 100 == 5,
        is_success(status) <==> status / 100 == 2,
        !(is_success(status) && is_transient(status)),
{
}

/// What to do after a failure.
#[derive(Clone, Copy, Debug, PartialEq, Eq, Structural)]
pub enum Again {
    GiveUp,
    /// Try again after the wait that the provider asked for.
    AfterAdvertised,
    /// Try again after so many milliseconds.
    After { millis: u64 },
}

/// The attempts of one call.
#[derive(Clone, Copy, Debug, PartialEq, Eq, Structural)]
pub struct Attempts {
    made: u32,
    max_retries: u32,
    backoff: u64,
}

/// The wait after `retries` retries: a quarter of a second, doubled each time, half a minute at
/// most.
pub open spec fn backoff_after(retries: nat) -> nat
    decreases retries,
{
    if retries == 0 {
        250
    } else {
        let doubled = 2 * backoff_after((retries - 1) as nat);
        if doubled < 30000 {
            doubled
        } else {
            30000
        }
    }
}

proof fn lemma_backoff(retries: nat)
    ensures
        250 <= backoff_after(retries) <= 30000,
    decreases retries,
{
    if retries > 0 {
        lemma_backoff((retries - 1) as nat);
    }
}

impl Attempts {
    /// Retries so far.
    pub closed spec fn retries(self) -> nat {
        self.made as nat
    }

    pub closed spec fn max_retries(self) -> nat {
        self.max_retries as nat
    }

    pub closed spec fn well_formed(self) -> bool {
        self.made <= self.max_retries && self.backoff == backoff_after(self.made as nat)
    }

    pub fn new(max_retries: u32) -> (attempts: Self)
        ensures
            attempts.well_formed(),
            attempts.retries() == 0,
            attempts.max_retries() == max_retries,
    {
        Attempts { made: 0, max_retries, backoff: 250 }
    }

    /// An attempt failed. Only what may pass is tried again, and only so often. `advertised`
    /// says that the provider asked for a wait.
    pub fn failed(&mut self, retry: bool, advertised: bool) -> (again: Again)
        requires
            old(self).well_formed(),
        ensures
            final(self).well_formed(),
            final(self).max_retries() == old(self).max_retries(),
            if !retry || old(self).retries() == old(self).max_retries() {
                again == Again::GiveUp && final(self).retries() == old(self).retries()
            } else {
                final(self).retries() == old(self).retries() + 1 && again == if advertised {
                    Again::AfterAdvertised
                } else {
                    Again::After { millis: backoff_after(old(self).retries()) as u64 }
                }
            },
    {
        if !retry || self.made == self.max_retries {
            return Again::GiveUp;
        }
        proof {
            lemma_backoff(self.made as nat);
        }
        let wait: u64 = self.backoff;
        self.made = self.made + 1;
        self.backoff = if wait * 2 < 30000 {
            wait * 2
        } else {
            30000
        };
        if advertised {
            Again::AfterAdvertised
        } else {
            Again::After { millis: wait }
        }
    }
}

/// Waits grow up to half a minute: they begin with a quarter of a second and double.
pub proof fn law_waits_grow(retries: nat)
    ensures
        backoff_after(0) == 250,
        retries < 6 ==> backoff_after(retries + 1) == 2 * backoff_after(retries),
        250 <= backoff_after(retries) <= backoff_after(retries + 1) <= 30000,
        retries >= 7 ==> backoff_after(retries) == 30000,
    decreases retries,
{
    lemma_backoff(retries);
    lemma_backoff(retries + 1);
    if retries > 7 {
        law_waits_grow((retries - 1) as nat);
    } else {
        reveal_with_fuel(backoff_after, 8);
    }
}

} // verus!
