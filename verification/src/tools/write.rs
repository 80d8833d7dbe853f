//! The `write` tool.

use crate::json;
use crate::json::{no_fields, no_items, put, put_item, Json};
use crate::strings;
use crate::tools;
use crate::tools::path;
use crate::tools::path::resolve;
use crate::tools::{property, schema, string_arg, ToolInfo, ToolOutput};
use vstd::prelude::*;

verus! {

pub struct Write;

pub open spec fn about() -> Seq<char> {
    "Write content to a file. Creates the file if it doesn't exist, overwrites if it does. Automatically creates parent directories."@
}

pub open spec fn parameters_of() -> json::JsonView {
    tools::schema_of(
        seq![
            ("path"@, tools::property_of("string"@, "Path to the file to write (relative or absolute)"@)),
            ("content"@, tools::property_of("string"@, "Content to write to the file"@)),
        ],
        seq![json::JsonView::Text("path"@), json::JsonView::Text("content"@)],
    )
}

pub open spec fn info_of() -> tools::InfoView {
    tools::InfoView {
        name: "write"@,
        description: about(),
        parameters: parameters_of(),
        snippet: "Create or overwrite files"@,
        guidelines: seq!["Use write only for new files or complete rewrites."@],
    }
}

impl Write {
    pub fn name(&self) -> (name: &'static str)
        ensures
            name@ == info_of().name,
    {
        "write"
    }

    pub fn description(&self) -> (description: String)
        ensures
            description@ == info_of().description,
    {
        "Write content to a file. Creates the file if it doesn't exist, overwrites if it does. Automatically creates parent directories.".to_owned()
    }

    pub fn parameters(&self) -> (parameters: Json)
        ensures
            parameters@ == info_of().parameters,
    {
        let mut properties = no_fields();
        put(
            &mut properties,
            "path",
            property("string", "Path to the file to write (relative or absolute)"),
        );
        put(&mut properties, "content", property("string", "Content to write to the file"));
        let mut required = no_items();
        put_item(&mut required, json::text("path"));
        put_item(&mut required, json::text("content"));
        proof {
            let wanted = parameters_of()->Object_0;
            assert(json::field_views(properties@) =~= wanted[1].1->Object_0);
            assert(json::views(required@) =~= wanted[2].1->List_0);
        }
        schema(properties, required)
    }

    pub fn snippet(&self) -> (snippet: &'static str)
        ensures
            snippet@ == info_of().snippet,
    {
        "Create or overwrite files"
    }

    pub fn guidelines(&self) -> (guidelines: Vec<String>)
        ensures
            strings::texts(guidelines@) == info_of().guidelines,
    {
        let guidelines: Vec<String> = vec![
            "Use write only for new files or complete rewrites.".to_owned(),
        ];
        assert(strings::texts(guidelines@) =~= info_of().guidelines);
        guidelines
    }

    pub fn info(&self) -> (info: ToolInfo)
        ensures
            info@ == info_of(),
    {
        ToolInfo {
            name: self.name().to_owned(),
            description: self.description(),
            parameters: self.parameters(),
            snippet: self.snippet().to_owned(),
            guidelines: self.guidelines(),
        }
    }
}

/// A file to write: what the call named it, where it is, and what it is to hold.
#[derive(Clone, Debug, PartialEq, Eq)]
pub struct Plan {
    pub path: String,
    pub absolute: String,
    pub content: String,
}

/// What a call asks for: the first argument that is missing, or the file to write.
pub fn plan(args: &Json, cwd: &str, home: &str) -> (result: Result<Plan, String>)
    ensures
        match (tools::wanted_text(args@, "path"@), tools::wanted_text(args@, "content"@)) {
            (None, _) => result matches Err(error) && error@ == tools::missing_argument("path"@),
            (Some(_), None) => result matches Err(error) && error@ == tools::missing_argument(
                "content"@,
            ),
            (Some(path), Some(content)) => result matches Ok(plan) && plan.path@ == path
                && plan.content@ == content && plan.absolute@ == path::resolved(path, cwd@, home@),
        },
{
    let path = match string_arg(args, "path") {
        Ok(path) => path,
        Err(error) => {
            return Err(error);
        },
    };
    let content = match string_arg(args, "content") {
        Ok(content) => content,
        Err(error) => {
            return Err(error);
        },
    };
    let absolute = resolve(path, cwd, home);
    Ok(Plan { path: path.to_owned(), absolute, content: content.to_owned() })
}

/// What a call that wrote its file answers.
pub fn wrote(path: &str) -> (output: ToolOutput)
    ensures
        output@ == tools::said("Successfully wrote to "@ + path@, false),
{
    let mut text = "Successfully wrote to ".to_owned();
    text.append(path);
    ToolOutput::text(text)
}

} // verus!
