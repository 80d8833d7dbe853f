//! Tools an agent can call: the coding set (read, bash, edit, write) and `send_message` for
//! mail between agents. What a tool is told and answers is here; what it does to files and
//! processes is up to its caller.

pub mod bash;
pub mod edit;
pub mod edits;
pub mod errors;
pub mod message;
pub mod path;
pub mod read;
pub mod text;
pub mod write;

pub use crate::tools::path::resolve;

use crate::json;
use crate::json::{no_fields, put, sealed, sealed_list, Json};
use crate::strings;
use vstd::prelude::*;

verus! {

/// What a tool call returns to the model.
#[derive(Clone, Debug, PartialEq, Eq)]
pub enum Content {
    Text(String),
    /// Base64 image data.
    Image { mime: String, data: String },
}

pub ghost enum ContentView {
    Text(Seq<char>),
    Image { mime: Seq<char>, data: Seq<char> },
}

impl View for Content {
    type V = ContentView;

    open spec fn view(&self) -> ContentView {
        match self {
            Content::Text(text) => ContentView::Text(text@),
            Content::Image { mime, data } => ContentView::Image { mime: mime@, data: data@ },
        }
    }
}

pub open spec fn content_views(content: Seq<Content>) -> Seq<ContentView> {
    content.map_values(|part: Content| part@)
}

#[derive(Debug, PartialEq, Eq)]
pub struct ToolOutput {
    pub content: Vec<Content>,
    pub is_error: bool,
    /// For observers such as a UI; never sent to the model.
    pub details: Json,
    /// Inbox mail this result hands to the agent, which is then not delivered again.
    pub delivers: Option<i64>,
}

pub ghost struct OutputView {
    pub content: Seq<ContentView>,
    pub is_error: bool,
    pub details: json::JsonView,
    pub delivers: Option<i64>,
}

impl View for ToolOutput {
    type V = OutputView;

    open spec fn view(&self) -> OutputView {
        OutputView {
            content: content_views(self.content@),
            is_error: self.is_error,
            details: self.details@,
            delivers: self.delivers,
        }
    }
}

/// A result that is one text.
pub open spec fn said(text: Seq<char>, is_error: bool) -> OutputView {
    OutputView {
        content: seq![ContentView::Text(text)],
        is_error,
        details: json::JsonView::Null,
        delivers: None,
    }
}

/// A result that is one text holds that text, says whether it is an error, and delivers nothing.
pub proof fn law_a_result_says_its_text(text: Seq<char>, is_error: bool)
    ensures
        said(text, is_error).content.len() == 1,
        said(text, is_error).content[0] == ContentView::Text(text),
        said(text, is_error).is_error == is_error,
        said(text, is_error).delivers is None,
        said(text, is_error).details == json::JsonView::Null,
{
}

impl Content {
    pub fn copied(&self) -> (copy: Content)
        ensures
            copy@ == self@,
    {
        match self {
            Content::Text(text) => Content::Text(text.clone()),
            Content::Image { mime, data } => Content::Image {
                mime: mime.clone(),
                data: data.clone(),
            },
        }
    }
}

impl ToolOutput {
    pub fn new(content: Vec<Content>) -> (output: Self)
        ensures
            output@ == (OutputView {
                content: content_views(content@),
                is_error: false,
                details: json::JsonView::Null,
                delivers: None,
            }),
    {
        Self { content, is_error: false, details: Json::Null, delivers: None }
    }

    pub fn text(text: String) -> (output: Self)
        ensures
            output@ == said(text@, false),
    {
        let content: Vec<Content> = vec![Content::Text(text)];
        assert(content_views(content@) =~= seq![ContentView::Text(text@)]);
        Self::new(content)
    }

    pub fn error(text: String) -> (output: Self)
        ensures
            output@ == said(text@, true),
    {
        let mut output = Self::text(text);
        output.is_error = true;
        output
    }

    pub fn with_details(self, details: Json) -> (output: Self)
        ensures
            output@ == (OutputView { details: details@, ..self@ }),
    {
        Self {
            content: self.content,
            is_error: self.is_error,
            details,
            delivers: self.delivers,
        }
    }

    /// A result of its own that holds the same.
    pub fn copied(&self) -> (copy: ToolOutput)
        ensures
            copy@ == self@,
    {
        let mut content: Vec<Content> = Vec::new();
        let mut at: usize = 0;
        while at < self.content.len()
            invariant
                at <= self.content@.len(),
                content_views(content@) == content_views(self.content@).take(at as int),
            decreases self.content@.len() - at,
        {
            let ghost before = content@;
            let part = self.content[at].copied();
            content.push(part);
            assert(content_views(content@) =~= content_views(before).push(part@));
            at += 1;
            assert(content_views(content@) =~= content_views(self.content@).take(at as int));
        }
        assert(content_views(self.content@).take(at as int) =~= content_views(self.content@));
        ToolOutput {
            content,
            is_error: self.is_error,
            details: self.details.copied(),
            delivers: self.delivers,
        }
    }
}

/// Mail that answers a message.
#[derive(Clone, Debug, PartialEq, Eq)]
pub struct Reply {
    pub id: i64,
    pub text: String,
}

// ---- Arguments ----

pub open spec fn missing_argument(key: Seq<char>) -> Seq<char> {
    "Missing required string argument: "@ + key
}

pub open spec fn wanted_text(args: json::JsonView, key: Seq<char>) -> Option<Seq<char>> {
    match args.get(key) {
        Some(value) => value.text(),
        None => None,
    }
}

/// An argument is a text exactly where the call gives a text under that name.
pub proof fn law_arguments_are_texts(args: json::JsonView, key: Seq<char>, text: Seq<char>)
    ensures
        wanted_text(args, key) == Some(text) <==> args.get(key) == Some(json::JsonView::Text(text)),
        missing_argument(key) == "Missing required string argument: "@ + key,
{
}

/// A text that a call has to give.
pub fn string_arg<'a>(args: &'a Json, key: &str) -> (value: Result<&'a str, String>)
    ensures
        match value {
            Ok(text) => wanted_text(args@, key@) == Some(text@),
            Err(error) => wanted_text(args@, key@) is None && error@ == missing_argument(key@),
        },
{
    let found = match args.get(key) {
        Some(value) => value.as_str(),
        None => None,
    };
    match found {
        Some(text) => Ok(text),
        None => {
            let mut error = "Missing required string argument: ".to_owned();
            error.append(key);
            Err(error)
        },
    }
}

// ---- Descriptions ----

/// What a model is told of a tool.
#[derive(Debug, PartialEq, Eq)]
pub struct ToolInfo {
    pub name: String,
    pub description: String,
    /// JSON Schema of the arguments object.
    pub parameters: Json,
    /// One line for the system prompt's tool list.
    pub snippet: String,
    /// Usage rules added to the system prompt.
    pub guidelines: Vec<String>,
}

pub ghost struct InfoView {
    pub name: Seq<char>,
    pub description: Seq<char>,
    pub parameters: json::JsonView,
    pub snippet: Seq<char>,
    pub guidelines: Seq<Seq<char>>,
}

impl View for ToolInfo {
    type V = InfoView;

    open spec fn view(&self) -> InfoView {
        InfoView {
            name: self.name@,
            description: self.description@,
            parameters: self.parameters@,
            snippet: self.snippet@,
            guidelines: strings::texts(self.guidelines@),
        }
    }
}

pub open spec fn info_views(tools: Seq<ToolInfo>) -> Seq<InfoView> {
    tools.map_values(|tool: ToolInfo| tool@)
}

/// A property of a tool's arguments.
pub open spec fn property_of(kind: Seq<char>, description: Seq<char>) -> json::JsonView {
    json::JsonView::Object(
        seq![
            ("type"@, json::JsonView::Text(kind)),
            ("description"@, json::JsonView::Text(description)),
        ],
    )
}

/// The schema of an object with these properties, some of them required.
pub open spec fn schema_of(
    properties: Seq<(Seq<char>, json::JsonView)>,
    required: Seq<json::JsonView>,
) -> json::JsonView {
    json::JsonView::Object(
        seq![
            ("type"@, json::JsonView::Text("object"@)),
            ("properties"@, json::JsonView::Object(properties)),
            ("required"@, json::JsonView::List(required)),
        ],
    )
}

pub(crate) fn property(kind: &str, description: &str) -> (property: Json)
    ensures
        property@ == property_of(kind@, description@),
{
    let mut fields = no_fields();
    put(&mut fields, "type", json::text(kind));
    put(&mut fields, "description", json::text(description));
    let property = sealed(fields);
    assert(property@->Object_0 =~= property_of(kind@, description@)->Object_0);
    property
}

pub(crate) fn schema(properties: Vec<(String, Json)>, required: Vec<Json>) -> (schema: Json)
    ensures
        schema@ == schema_of(json::field_views(properties@), json::views(required@)),
{
    let ghost wanted = schema_of(json::field_views(properties@), json::views(required@));
    let mut fields = no_fields();
    put(&mut fields, "type", json::text("object"));
    put(&mut fields, "properties", sealed(properties));
    put(&mut fields, "required", sealed_list(required));
    let schema = sealed(fields);
    assert(schema@->Object_0 =~= wanted->Object_0);
    schema
}

/// The coding tools, then agent messaging.
pub open spec fn builtin_views() -> Seq<InfoView> {
    seq![
        read::info_of(),
        bash::info_of(),
        edit::info_of(),
        write::info_of(),
        message::info_of(),
    ]
}

/// Whether a tool takes an argument of this name and kind.
pub open spec fn takes(parameters: json::JsonView, name: Seq<char>, kind: Seq<char>) -> bool {
    parameters.at("properties"@).at(name).get("type"@) == Some(json::JsonView::Text(kind))
}

/// Whether these are the arguments that a tool requires.
pub open spec fn requires_exactly(parameters: json::JsonView, names: Seq<Seq<char>>) -> bool {
    parameters.get("required"@) == Some(
        json::JsonView::List(names.map_values(|name: Seq<char>| json::JsonView::Text(name))),
    )
}

/// A schema holds its properties and what it requires, each under its own name.
pub proof fn law_a_schema_names_properties_and_requirements(
    properties: Seq<(Seq<char>, json::JsonView)>,
    required: Seq<json::JsonView>,
)
    ensures
        schema_of(properties, required).get("type"@) == Some(json::JsonView::Text("object"@)),
        schema_of(properties, required).get("properties"@) == Some(
            json::JsonView::Object(properties),
        ),
        schema_of(properties, required).get("required"@) == Some(json::JsonView::List(required)),
{
    reveal_strlit("type");
    reveal_strlit("properties");
    reveal_strlit("required");
    let fields = schema_of(properties, required)->Object_0;
    assert(fields[0].0 == "type"@);
    assert(fields[1].0 == "properties"@);
    assert(fields[2].0 == "required"@);
    json::law_a_field_is_found_under_its_name(fields, "type"@, 0);
    json::law_a_field_is_found_under_its_name(fields, "properties"@, 1);
    json::law_a_field_is_found_under_its_name(fields, "required"@, 2);
}

/// A property says of which kind it is and what it means.
pub proof fn law_a_property_tells_its_kind(kind: Seq<char>, description: Seq<char>)
    ensures
        property_of(kind, description).get("type"@) == Some(json::JsonView::Text(kind)),
        property_of(kind, description).get("description"@) == Some(
            json::JsonView::Text(description),
        ),
{
    reveal_strlit("type");
    reveal_strlit("description");
    let fields = property_of(kind, description)->Object_0;
    assert(fields[0].0 == "type"@);
    assert(fields[1].0 == "description"@);
    json::law_a_field_is_found_under_its_name(fields, "type"@, 0);
    json::law_a_field_is_found_under_its_name(fields, "description"@, 1);
}

/// A tool whose properties have different names takes each of them, of its own kind.
proof fn lemma_takes(
    properties: Seq<(Seq<char>, json::JsonView)>,
    required: Seq<json::JsonView>,
    i: int,
    kind: Seq<char>,
)
    requires
        0 <= i < properties.len(),
        forall|j: int| #![trigger properties[j]] 0 <= j < i ==> properties[j].0 != properties[i].0,
        properties[i].1.get("type"@) == Some(json::JsonView::Text(kind)),
    ensures
        takes(schema_of(properties, required), properties[i].0, kind),
{
    law_a_schema_names_properties_and_requirements(properties, required);
    json::law_a_field_is_found_under_its_name(properties, properties[i].0, i);
}

/// The tools that every harness has, by name, and what each of them takes and requires.
pub proof fn law_tools_take_what_they_read()
    ensures
        builtin_views().map_values(|info: InfoView| info.name) == seq![
            "read"@,
            "bash"@,
            "edit"@,
            "write"@,
            "send_message"@,
        ],
        takes(read::parameters_of(), "path"@, "string"@),
        takes(read::parameters_of(), "offset"@, "number"@),
        takes(read::parameters_of(), "limit"@, "number"@),
        requires_exactly(read::parameters_of(), seq!["path"@]),
        takes(bash::parameters_of(), "command"@, "string"@),
        takes(bash::parameters_of(), "timeout"@, "number"@),
        requires_exactly(bash::parameters_of(), seq!["command"@]),
        takes(write::parameters_of(), "path"@, "string"@),
        takes(write::parameters_of(), "content"@, "string"@),
        requires_exactly(write::parameters_of(), seq!["path"@, "content"@]),
        takes(message::parameters_of(), "agent"@, "string"@),
        takes(message::parameters_of(), "text"@, "string"@),
        takes(message::parameters_of(), "wait"@, "boolean"@),
        takes(message::parameters_of(), "timeout_seconds"@, "number"@),
        requires_exactly(message::parameters_of(), seq!["agent"@, "text"@]),
        takes(edit::parameters_of(), "path"@, "string"@),
        takes(edit::parameters_of(), "edits"@, "array"@),
        requires_exactly(edit::parameters_of(), seq!["path"@, "edits"@]),
        takes(edit::list_schema().at("items"@), "oldText"@, "string"@),
        takes(edit::list_schema().at("items"@), "newText"@, "string"@),
        requires_exactly(edit::list_schema().at("items"@), seq!["oldText"@, "newText"@]),
{
    assert(builtin_views().map_values(|info: InfoView| info.name) =~= seq![
        "read"@,
        "bash"@,
        "edit"@,
        "write"@,
        "send_message"@,
    ]);
    lemma_read_takes();
    lemma_bash_takes();
    lemma_write_takes();
    lemma_message_takes();
    lemma_edit_takes();
}

proof fn lemma_read_takes()
    ensures
        takes(read::parameters_of(), "path"@, "string"@),
        takes(read::parameters_of(), "offset"@, "number"@),
        takes(read::parameters_of(), "limit"@, "number"@),
        requires_exactly(read::parameters_of(), seq!["path"@]),
{
    reveal_strlit("path");
    reveal_strlit("offset");
    reveal_strlit("limit");
    let properties = read::parameters_of()->Object_0[1].1->Object_0;
    let required = read::parameters_of()->Object_0[2].1->List_0;
    law_a_schema_names_properties_and_requirements(properties, required);
    assert(required =~= seq!["path"@].map_values(|name: Seq<char>| json::JsonView::Text(name)));
    law_a_property_tells_its_kind("string"@, "Path to the file to read (relative or absolute)"@);
    law_a_property_tells_its_kind("number"@, "Line number to start reading from (1-indexed)"@);
    law_a_property_tells_its_kind("number"@, "Maximum number of lines to read"@);
    assert(properties[0].0 == "path"@);
    assert(properties[1].0 == "offset"@);
    assert(properties[2].0 == "limit"@);
    lemma_takes(properties, required, 0, "string"@);
    lemma_takes(properties, required, 1, "number"@);
    lemma_takes(properties, required, 2, "number"@);
}

proof fn lemma_bash_takes()
    ensures
        takes(bash::parameters_of(), "command"@, "string"@),
        takes(bash::parameters_of(), "timeout"@, "number"@),
        requires_exactly(bash::parameters_of(), seq!["command"@]),
{
    reveal_strlit("command");
    reveal_strlit("timeout");
    let properties = bash::parameters_of()->Object_0[1].1->Object_0;
    let required = bash::parameters_of()->Object_0[2].1->List_0;
    law_a_schema_names_properties_and_requirements(properties, required);
    assert(required =~= seq!["command"@].map_values(|name: Seq<char>| json::JsonView::Text(name)));
    assert("command"@[0] == 'c' && "timeout"@[0] == 't');
    law_a_property_tells_its_kind("string"@, "Shell command to execute"@);
    law_a_property_tells_its_kind("number"@, "Timeout in seconds (optional, no default timeout)"@);
    assert(properties[0].0 == "command"@);
    assert(properties[1].0 == "timeout"@);
    lemma_takes(properties, required, 0, "string"@);
    lemma_takes(properties, required, 1, "number"@);
}

proof fn lemma_write_takes()
    ensures
        takes(write::parameters_of(), "path"@, "string"@),
        takes(write::parameters_of(), "content"@, "string"@),
        requires_exactly(write::parameters_of(), seq!["path"@, "content"@]),
{
    reveal_strlit("path");
    reveal_strlit("content");
    let properties = write::parameters_of()->Object_0[1].1->Object_0;
    let required = write::parameters_of()->Object_0[2].1->List_0;
    law_a_schema_names_properties_and_requirements(properties, required);
    assert(required =~= seq!["path"@, "content"@].map_values(|name: Seq<char>| json::JsonView::Text(name)));
    law_a_property_tells_its_kind("string"@, "Path to the file to write (relative or absolute)"@);
    law_a_property_tells_its_kind("string"@, "Content to write to the file"@);
    assert(properties[0].0 == "path"@);
    assert(properties[1].0 == "content"@);
    lemma_takes(properties, required, 0, "string"@);
    lemma_takes(properties, required, 1, "string"@);
}

proof fn lemma_message_takes()
    ensures
        takes(message::parameters_of(), "agent"@, "string"@),
        takes(message::parameters_of(), "text"@, "string"@),
        takes(message::parameters_of(), "wait"@, "boolean"@),
        takes(message::parameters_of(), "timeout_seconds"@, "number"@),
        requires_exactly(message::parameters_of(), seq!["agent"@, "text"@]),
{
    reveal_strlit("agent");
    reveal_strlit("text");
    reveal_strlit("wait");
    reveal_strlit("timeout_seconds");
    let properties = message::parameters_of()->Object_0[1].1->Object_0;
    let required = message::parameters_of()->Object_0[2].1->List_0;
    law_a_schema_names_properties_and_requirements(properties, required);
    assert(required =~= seq!["agent"@, "text"@].map_values(|name: Seq<char>| json::JsonView::Text(name)));
    law_a_property_tells_its_kind("string"@, "Id of the receiving agent, or \"user\""@);
    law_a_property_tells_its_kind("string"@, "Message text"@);
    law_a_property_tells_its_kind("boolean"@, "Wait for the recipient's reply (default false)"@);
    law_a_property_tells_its_kind("number"@, "Longest wait for a reply; no limit when omitted"@);
    assert("text"@[0] == 't' && "wait"@[0] == 'w');
    assert(properties[0].0 == "agent"@);
    assert(properties[1].0 == "text"@);
    assert(properties[2].0 == "wait"@);
    assert(properties[3].0 == "timeout_seconds"@);
    lemma_takes(properties, required, 0, "string"@);
    lemma_takes(properties, required, 1, "string"@);
    lemma_takes(properties, required, 2, "boolean"@);
    lemma_takes(properties, required, 3, "number"@);
}

proof fn lemma_edit_takes()
    ensures
        takes(edit::parameters_of(), "path"@, "string"@),
        takes(edit::parameters_of(), "edits"@, "array"@),
        requires_exactly(edit::parameters_of(), seq!["path"@, "edits"@]),
        takes(edit::list_schema().at("items"@), "oldText"@, "string"@),
        takes(edit::list_schema().at("items"@), "newText"@, "string"@),
        requires_exactly(edit::list_schema().at("items"@), seq!["oldText"@, "newText"@]),
{
    reveal_strlit("path");
    reveal_strlit("edits");
    reveal_strlit("oldText");
    reveal_strlit("newText");
    reveal_strlit("type");
    reveal_strlit("description");
    reveal_strlit("items");
    assert("oldText"@[0] == 'o' && "newText"@[0] == 'n');
    let list = edit::list_schema()->Object_0;
    assert(list[0].0 == "type"@);
    assert(list[1].0 == "description"@);
    assert(list[2].0 == "items"@);
    json::law_a_field_is_found_under_its_name(list, "type"@, 0);
    json::law_a_field_is_found_under_its_name(list, "items"@, 2);
    let properties = edit::parameters_of()->Object_0[1].1->Object_0;
    let required = edit::parameters_of()->Object_0[2].1->List_0;
    law_a_schema_names_properties_and_requirements(properties, required);
    assert(required =~= seq!["path"@, "edits"@].map_values(
        |name: Seq<char>| json::JsonView::Text(name),
    ));
    law_a_property_tells_its_kind(
        "string"@,
        "Path to the file to edit (relative or absolute)"@,
    );
    assert(properties[0].0 == "path"@);
    assert(properties[1].0 == "edits"@);
    lemma_takes(properties, required, 0, "string"@);
    lemma_takes(properties, required, 1, "array"@);
    let parts = edit::item_schema()->Object_0[1].1->Object_0;
    let both = edit::item_schema()->Object_0[2].1->List_0;
    law_a_schema_names_properties_and_requirements(parts, both);
    assert(both =~= seq!["oldText"@, "newText"@].map_values(
        |name: Seq<char>| json::JsonView::Text(name),
    ));
    law_a_property_tells_its_kind(
        "string"@,
        "Exact text for one targeted replacement. It must be unique in the original file and must not overlap with any other edits[].oldText in the same call."@,
    );
    law_a_property_tells_its_kind("string"@, "Replacement text for this targeted edit."@);
    assert(parts[0].0 == "oldText"@);
    assert(parts[1].0 == "newText"@);
    lemma_takes(parts, both, 0, "string"@);
    lemma_takes(parts, both, 1, "string"@);
}

/// The coding tools, then agent messaging.
pub fn builtin() -> (tools: Vec<ToolInfo>)
    ensures
        info_views(tools@) == builtin_views(),
{
    let tools: Vec<ToolInfo> = vec![
        read::Read.info(),
        bash::Bash.info(),
        edit::Edit.info(),
        write::Write.info(),
        message::SendMessage.info(),
    ];
    assert(info_views(tools@) =~= builtin_views());
    tools
}

} // verus!
