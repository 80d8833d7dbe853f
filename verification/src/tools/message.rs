//! `send_message`: mail to another agent, or to a recipient the host serves such as the
//! user. The recipient gets it as its next input: an idle agent starts a turn, a busy one
//! sees it at its next tool boundary, and one held by an interrupt keeps it until the user
//! writes again. With `wait`, the call returns the recipient's next message to the sender
//! as its result instead of it arriving as mail.

use crate::json;
use crate::json::{no_fields, no_items, put, put_item, Json};
use crate::strings;
use crate::strings::same;
use crate::tools;
use crate::tools::{property, schema, string_arg, Reply, ToolInfo, ToolOutput};
use vstd::prelude::*;

verus! {

pub struct SendMessage;

pub open spec fn about() -> Seq<char> {
    "Send a message to another agent by id, or to \"user\". It is queued: an idle agent starts working on it, a busy agent receives it at its next tool call boundary. Replies arrive as messages. Set wait to block until the recipient replies; the reply is then this call's result. timeout_seconds limits the wait, after which a reply arrives as a message instead."@
}

pub open spec fn parameters_of() -> json::JsonView {
    tools::schema_of(
        seq![
            ("agent"@, tools::property_of("string"@, "Id of the receiving agent, or \"user\""@)),
            ("text"@, tools::property_of("string"@, "Message text"@)),
            ("wait"@, tools::property_of("boolean"@, "Wait for the recipient's reply (default false)"@)),
            (
                "timeout_seconds"@,
                tools::property_of("number"@, "Longest wait for a reply; no limit when omitted"@),
            ),
        ],
        seq![json::JsonView::Text("agent"@), json::JsonView::Text("text"@)],
    )
}

pub open spec fn info_of() -> tools::InfoView {
    tools::InfoView {
        name: "send_message"@,
        description: about(),
        parameters: parameters_of(),
        snippet: "Message another agent or the user, optionally waiting for the reply"@,
        guidelines: Seq::empty(),
    }
}

impl SendMessage {
    pub fn name(&self) -> (name: &'static str)
        ensures
            name@ == info_of().name,
    {
        "send_message"
    }

    pub fn description(&self) -> (description: String)
        ensures
            description@ == info_of().description,
    {
        "Send a message to another agent by id, or to \"user\". It is queued: an idle agent starts working on it, a busy agent receives it at its next tool call boundary. Replies arrive as messages. Set wait to block until the recipient replies; the reply is then this call's result. timeout_seconds limits the wait, after which a reply arrives as a message instead.".to_owned()
    }

    pub fn parameters(&self) -> (parameters: Json)
        ensures
            parameters@ == info_of().parameters,
    {
        let mut properties = no_fields();
        put(
            &mut properties,
            "agent",
            property("string", "Id of the receiving agent, or \"user\""),
        );
        put(&mut properties, "text", property("string", "Message text"));
        put(
            &mut properties,
            "wait",
            property("boolean", "Wait for the recipient's reply (default false)"),
        );
        put(
            &mut properties,
            "timeout_seconds",
            property("number", "Longest wait for a reply; no limit when omitted"),
        );
        let mut required = no_items();
        put_item(&mut required, json::text("agent"));
        put_item(&mut required, json::text("text"));
        proof {
            let wanted = parameters_of()->Object_0;
            assert(json::field_views(properties@) =~= wanted[1].1->Object_0);
            assert(json::views(required@) =~= wanted[2].1->List_0);
        }
        schema(properties, required)
    }

    pub fn snippet(&self) -> (snippet: &'static str)
        ensures
            snippet@ == info_of().snippet,
    {
        "Message another agent or the user, optionally waiting for the reply"
    }

    pub fn guidelines(&self) -> (guidelines: Vec<String>)
        ensures
            strings::texts(guidelines@) == info_of().guidelines,
    {
        let guidelines: Vec<String> = Vec::new();
        assert(strings::texts(guidelines@) =~= info_of().guidelines);
        guidelines
    }

    pub fn info(&self) -> (info: ToolInfo)
        ensures
            info@ == info_of(),
    {
        ToolInfo {
            name: self.name().to_owned(),
            description: self.description(),
            parameters: self.parameters(),
            snippet: self.snippet().to_owned(),
            guidelines: self.guidelines(),
        }
    }
}

pub open spec fn described(to: Seq<char>) -> Seq<char> {
    if to == "user"@ {
        "the user"@
    } else {
        "agent "@ + to
    }
}

fn describe(to: &str) -> (name: String)
    ensures
        name@ == described(to@),
{
    if same(to, "user") {
        "the user".to_owned()
    } else {
        let mut name = "agent ".to_owned();
        name.append(to);
        name
    }
}

/// A message to send, and whether to wait for the reply to it.
#[derive(Clone, Debug, PartialEq, Eq)]
pub struct Plan {
    pub to: String,
    pub text: String,
    pub wait: bool,
}

pub open spec fn asks_to_wait(args: json::JsonView) -> bool {
    args.at("wait"@).bool() == Some(true)
}

/// What a call asks for: a message to somebody other than the caller.
pub fn plan(args: &Json, caller: &str) -> (result: Result<Plan, String>)
    ensures
        match (tools::wanted_text(args@, "agent"@), tools::wanted_text(args@, "text"@)) {
            (None, _) => result matches Err(error) && error@ == tools::missing_argument("agent"@),
            (Some(_), None) => result matches Err(error) && error@ == tools::missing_argument(
                "text"@,
            ),
            (Some(to), Some(text)) => if to == caller@ {
                result matches Err(error) && error@ == "You cannot message yourself."@
            } else {
                result matches Ok(plan) && plan.to@ == to && plan.text@ == text && plan.wait
                    == asks_to_wait(args@)
            },
        },
{
    let to = match string_arg(args, "agent") {
        Ok(to) => to,
        Err(error) => {
            return Err(error);
        },
    };
    let text = match string_arg(args, "text") {
        Ok(text) => text,
        Err(error) => {
            return Err(error);
        },
    };
    if same(to, caller) {
        return Err("You cannot message yourself.".to_owned());
    }
    let wait = match args.get("wait") {
        Some(value) => match value.as_bool() {
            Some(wait) => wait,
            None => false,
        },
        None => false,
    };
    Ok(Plan { to: to.to_owned(), text: text.to_owned(), wait })
}

/// What happens to a message and to the wait for its reply.
#[derive(Debug, PartialEq, Eq)]
pub enum Event {
    /// The message is queued at this position of the inbox order.
    Sent(i64),
    /// The mailbox refused it, or could not wait.
    Refused(String),
    Replied(Reply),
    /// The wait took as many seconds as the call allowed: in words, and whether that is one.
    TimedOut { seconds: String, one: bool },
    Interrupted,
}

/// What the call does next.
#[derive(Debug, PartialEq, Eq)]
pub enum Step {
    Answer(ToolOutput),
    /// Wait for mail from the recipient that came after this position.
    AwaitReply { after: i64 },
}

/// What is answered to an event, or none where the call waits.
pub open spec fn answer_of(to: Seq<char>, wait: bool, event: Event) -> Option<tools::OutputView> {
    match event {
        Event::Sent(_) => if wait {
            None
        } else if to == "user"@ {
            Some(tools::said("Message sent to the user."@, false))
        } else {
            Some(tools::said("Message queued for agent "@ + to + "."@, false))
        },
        Event::Refused(error) => Some(tools::said(error@, true)),
        Event::Replied(reply) => Some(
            tools::OutputView {
                delivers: Some(reply.id),
                ..tools::said("Reply from "@ + described(to) + ":\n"@ + reply.text@, false)
            },
        ),
        Event::TimedOut { seconds, one } => Some(
            tools::said(
                "No reply from "@ + described(to) + " within "@ + seconds@ + " "@ + if one {
                    "second"@
                } else {
                    "seconds"@
                } + ". A reply will arrive as a message."@,
                false,
            ),
        ),
        Event::Interrupted => Some(
            tools::said(
                "Stopped waiting for a reply from "@ + described(to) + ": interrupted."@,
                true,
            ),
        ),
    }
}

/// Goes on with a call after an event. A reply that ends a wait is handed over with the
/// answer, and is then not delivered as mail.
pub fn advance(plan: &Plan, event: Event) -> (step: Step)
    ensures
        match step {
            Step::Answer(output) => answer_of(plan.to@, plan.wait, event) == Some(output@),
            Step::AwaitReply { after } => answer_of(plan.to@, plan.wait, event) is None && event
                == Event::Sent(after),
        },
{
    match event {
        Event::Sent(position) => {
            if plan.wait {
                Step::AwaitReply { after: position }
            } else if same(plan.to.as_str(), "user") {
                Step::Answer(ToolOutput::text("Message sent to the user.".to_owned()))
            } else {
                let mut text = "Message queued for agent ".to_owned();
                text.append(plan.to.as_str());
                text.append(".");
                Step::Answer(ToolOutput::text(text))
            }
        },
        Event::Refused(error) => Step::Answer(ToolOutput::error(error)),
        Event::Replied(reply) => {
            let mut text = "Reply from ".to_owned();
            text.append(describe(plan.to.as_str()).as_str());
            text.append(":\n");
            text.append(reply.text.as_str());
            let mut output = ToolOutput::text(text);
            output.delivers = Some(reply.id);
            Step::Answer(output)
        },
        Event::TimedOut { seconds, one } => {
            let mut text = "No reply from ".to_owned();
            text.append(describe(plan.to.as_str()).as_str());
            text.append(" within ");
            text.append(seconds.as_str());
            text.append(" ");
            text.append(
                if one {
                    "second"
                } else {
                    "seconds"
                },
            );
            text.append(". A reply will arrive as a message.");
            Step::Answer(ToolOutput::text(text))
        },
        Event::Interrupted => {
            let mut text = "Stopped waiting for a reply from ".to_owned();
            text.append(describe(plan.to.as_str()).as_str());
            text.append(": interrupted.");
            Step::Answer(ToolOutput::error(text))
        },
    }
}

/// A call waits exactly where it asks to and its message went out. What it answers names the
/// recipient and holds the reply, where there is one; and only a refusal and an interruption are
/// errors.
pub proof fn law_a_call_answers_what_happened(
    to: Seq<char>,
    wait: bool,
    event: Event,
    args: json::JsonView,
)
    ensures
        asks_to_wait(args) <==> args.get("wait"@) == Some(json::JsonView::Bool(true)),
        answer_of(to, wait, event) is None <==> event is Sent && wait,
        answer_of(to, wait, event) matches Some(output) ==> {
            &&& output.is_error <==> event is Refused || event is Interrupted
            &&& output.content.len() == 1 && output.content[0] is Text
            &&& event matches Event::Refused(error) ==> output.content[0]->Text_0 == error@
            &&& event is Sent && to == "user"@ ==> output.content[0]->Text_0
                == "Message sent to the user."@
            &&& event is Sent && to != "user"@ ==> output.content[0]->Text_0
                == "Message queued for agent "@ + to + "."@
            &&& event matches Event::Replied(reply) ==> (to == "user"@ ==> output.content[0]->Text_0
                == "Reply from "@ + "the user"@ + ":\n"@ + reply.text@) && (to != "user"@
                ==> output.content[0]->Text_0 == "Reply from "@ + ("agent "@ + to) + ":\n"@
                + reply.text@)
            &&& event is TimedOut && to != "user"@ ==> output.content[0]->Text_0
                == "No reply from "@ + ("agent "@ + to) + " within "@ + event->seconds@ + " "@ + (
            if event->one {
                "second"@
            } else {
                "seconds"@
            }) + ". A reply will arrive as a message."@
            &&& event is Interrupted && to != "user"@ ==> output.content[0]->Text_0
                == "Stopped waiting for a reply from "@ + ("agent "@ + to) + ": interrupted."@
        },
{
}

/// A call hands over mail exactly where a reply ended its wait.
pub proof fn law_only_replies_are_handed_over(to: Seq<char>, wait: bool, event: Event)
    ensures
        answer_of(to, wait, event) matches Some(output) ==> (output.delivers is Some <==> event
            is Replied),
        event matches Event::Replied(reply) ==> (answer_of(to, wait, event)->0).delivers == Some(
            reply.id,
        ),
{
}

} // verus!
