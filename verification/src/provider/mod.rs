//! Model providers. A provider turns an agent's transcript into model output items. The rest of
//! the harness knows nothing about wire formats; [`responses`] speaks OpenAI's Responses API.

pub mod gate;
pub mod responses;
pub mod sse;

pub use crate::provider::gate::Hold;
pub use crate::provider::responses::ResponsesConfig;

use crate::agent;
use crate::agent::{Item, Usage};
use crate::json;
use crate::json::Json;
use vstd::prelude::*;

verus! {

/// What a model is told of a tool it may call.
#[derive(Debug, PartialEq, Eq)]
pub struct ToolSpec {
    pub name: String,
    pub description: String,
    pub parameters: Json,
}

pub ghost struct ToolSpecView {
    pub name: Seq<char>,
    pub description: Seq<char>,
    pub parameters: json::JsonView,
}

impl View for ToolSpec {
    type V = ToolSpecView;

    open spec fn view(&self) -> ToolSpecView {
        ToolSpecView {
            name: self.name@,
            description: self.description@,
            parameters: self.parameters@,
        }
    }
}

pub open spec fn tool_spec_views(tools: Seq<ToolSpec>) -> Seq<ToolSpecView> {
    tools.map_values(|tool: ToolSpec| tool@)
}

/// One model call: for which agent, with which model, and what the model is shown.
pub struct Request<'a> {
    pub agent: &'a str,
    pub model: &'a str,
    pub reasoning_effort: &'a Option<String>,
    pub system: &'a str,
    pub tools: &'a Vec<ToolSpec>,
    pub items: &'a Vec<Item>,
}

#[derive(Debug, PartialEq, Eq)]
pub struct Completion {
    pub items: Vec<Item>,
    pub usage: Usage,
}

/// What a request is authorized with.
#[derive(Clone, Debug, PartialEq, Eq)]
pub struct Authorization {
    pub token: String,
    /// Sent with the request, such as an account.
    pub headers: Vec<(String, String)>,
}

/// A token that never changes.
pub struct StaticToken(pub String);

impl StaticToken {
    pub fn authorize(&self) -> (authorization: Authorization)
        ensures
            authorization.token@ == self.0@,
            authorization.headers@.len() == 0,
    {
        Authorization { token: self.0.clone(), headers: Vec::new() }
    }
}

} // verus!
