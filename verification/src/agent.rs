//! What an agent is: a spec, a state, and a transcript of items. The transcript is the agent's
//! entire context; everything else can be rebuilt from it.

use crate::json;
use crate::json::Json;
use crate::machine::MachineSpec;
use crate::strings;
use crate::strings::same;
use crate::tools;
use crate::tools::ToolOutput;
use vstd::prelude::*;

verus! {

#[derive(Debug, PartialEq)]
pub struct AgentSpec {
    pub system_prompt: String,
    /// Names of registered tools this agent may call.
    pub tools: Vec<String>,
    /// Name of a registered provider.
    pub provider: String,
    pub model: String,
    pub reasoning_effort: Option<String>,
    /// Tokens that the model's context holds; the context is compacted before it overflows.
    pub context_window: Option<u64>,
    /// Whatever the host wants to keep with the agent.
    pub metadata: Json,
    pub machine: MachineSpec,
}

#[derive(Clone, Copy, Debug, PartialEq, Eq, Structural)]
pub enum AgentState {
    /// Nothing to do, or mail held after an interrupt.
    Idle,
    /// A turn is in progress: waiting on the model or running tools.
    Running,
    /// The last turn ended in a provider error. The next message retries.
    Failed,
}

/// How a state is written down.
pub open spec fn state_text(state: AgentState) -> Seq<char> {
    match state {
        AgentState::Idle => "idle"@,
        AgentState::Running => "running"@,
        AgentState::Failed => "failed"@,
    }
}

/// How a state is read; anything unknown is idle.
pub open spec fn state_of(text: Seq<char>) -> AgentState {
    if text == "running"@ {
        AgentState::Running
    } else if text == "failed"@ {
        AgentState::Failed
    } else {
        AgentState::Idle
    }
}

impl AgentState {
    pub fn as_str(self) -> (text: &'static str)
        ensures
            text@ == state_text(self),
    {
        match self {
            AgentState::Idle => "idle",
            AgentState::Running => "running",
            AgentState::Failed => "failed",
        }
    }

    pub fn parse(text: &str) -> (state: Self)
        ensures
            state == state_of(text@),
    {
        if same(text, "running") {
            AgentState::Running
        } else if same(text, "failed") {
            AgentState::Failed
        } else {
            AgentState::Idle
        }
    }
}

/// A state that is written down is read again.
pub proof fn law_states_survive(state: AgentState)
    ensures
        state_of(state_text(state)) == state,
{
    reveal_strlit("idle");
    reveal_strlit("running");
    reveal_strlit("failed");
    assert("idle"@.len() == 4 && "running"@.len() == 7 && "failed"@.len() == 6);
}

/// One step of an agent's history.
#[derive(Debug, PartialEq, Eq)]
pub enum Item {
    /// A message delivered to the agent: from `"user"` or from another agent's id.
    Input { from: String, text: String },
    Assistant { text: String },
    /// Model reasoning. `encrypted` is opaque provider state carried into later requests.
    Reasoning { summary: Vec<String>, encrypted: Option<String> },
    ToolCall { call_id: String, name: String, arguments: String },
    ToolResult { call_id: String, output: ToolOutput },
    /// Everything before this item, in the model's own words; the context goes on from here.
    Compaction { summary: String },
}

pub ghost enum ItemView {
    Input { from: Seq<char>, text: Seq<char> },
    Assistant { text: Seq<char> },
    Reasoning { summary: Seq<Seq<char>>, encrypted: Option<Seq<char>> },
    ToolCall { call_id: Seq<char>, name: Seq<char>, arguments: Seq<char> },
    ToolResult { call_id: Seq<char>, output: tools::OutputView },
    Compaction { summary: Seq<char> },
}

impl View for Item {
    type V = ItemView;

    open spec fn view(&self) -> ItemView {
        match *self {
            Item::Input { from, text } => ItemView::Input { from: from@, text: text@ },
            Item::Assistant { text } => ItemView::Assistant { text: text@ },
            Item::Reasoning { summary, encrypted } => ItemView::Reasoning {
                summary: strings::texts(summary@),
                encrypted: match encrypted {
                    Some(state) => Some(state@),
                    None => None,
                },
            },
            Item::ToolCall { call_id, name, arguments } => ItemView::ToolCall {
                call_id: call_id@,
                name: name@,
                arguments: arguments@,
            },
            Item::ToolResult { call_id, output } => ItemView::ToolResult {
                call_id: call_id@,
                output: output@,
            },
            Item::Compaction { summary } => ItemView::Compaction { summary: summary@ },
        }
    }
}

pub open spec fn item_views(items: Seq<Item>) -> Seq<ItemView> {
    items.map_values(|item: Item| item@)
}

pub fn copied_texts(from: &Vec<String>) -> (copy: Vec<String>)
    ensures
        strings::texts(copy@) == strings::texts(from@),
{
    let mut copy: Vec<String> = Vec::new();
    let mut i: usize = 0;
    assert(strings::texts(copy@) =~= strings::texts(from@).take(0));
    while i < from.len()
        invariant
            i <= from@.len(),
            strings::texts(copy@) == strings::texts(from@).take(i as int),
        decreases from@.len() - i,
    {
        let ghost before = strings::texts(copy@);
        let text = from[i].clone();
        copy.push(text);
        assert(strings::texts(copy@) =~= before.push(text@));
        i += 1;
        assert(strings::texts(copy@) =~= strings::texts(from@).take(i as int));
    }
    assert(strings::texts(from@).take(i as int) =~= strings::texts(from@));
    copy
}

impl Item {
    /// An item of its own that holds the same.
    pub fn copied(&self) -> (copy: Item)
        ensures
            copy@ == self@,
    {
        match self {
            Item::Input { from, text } => Item::Input { from: from.clone(), text: text.clone() },
            Item::Assistant { text } => Item::Assistant { text: text.clone() },
            Item::Reasoning { summary, encrypted } => Item::Reasoning {
                summary: copied_texts(summary),
                encrypted: match encrypted {
                    Some(state) => Some(state.clone()),
                    None => None,
                },
            },
            Item::ToolCall { call_id, name, arguments } => Item::ToolCall {
                call_id: call_id.clone(),
                name: name.clone(),
                arguments: arguments.clone(),
            },
            Item::ToolResult { call_id, output } => Item::ToolResult {
                call_id: call_id.clone(),
                output: output.copied(),
            },
            Item::Compaction { summary } => Item::Compaction { summary: summary.clone() },
        }
    }
}

/// A transcript line: one JSON object per line of `transcript.jsonl`.
#[derive(Debug, PartialEq, Eq)]
pub struct Entry {
    pub seq: u64,
    /// Milliseconds since the Unix epoch.
    pub at: u64,
    /// The inbox event this entry delivered, which makes delivery idempotent across crashes.
    pub event: Option<i64>,
    pub item: Item,
}

pub ghost struct EntryView {
    pub seq: u64,
    pub at: u64,
    pub event: Option<i64>,
    pub item: ItemView,
}

impl View for Entry {
    type V = EntryView;

    open spec fn view(&self) -> EntryView {
        EntryView { seq: self.seq, at: self.at, event: self.event, item: self.item@ }
    }
}

pub open spec fn entry_views(entries: Seq<Entry>) -> Seq<EntryView> {
    entries.map_values(|entry: Entry| entry@)
}

impl Entry {
    /// An entry of its own that holds the same.
    pub fn copied(&self) -> (copy: Entry)
        ensures
            copy@ == self@,
    {
        Entry { seq: self.seq, at: self.at, event: self.event, item: self.item.copied() }
    }
}

#[derive(Clone, Copy, Debug, PartialEq, Eq, Structural)]
pub struct Usage {
    pub input: u64,
    pub cached_input: u64,
    pub output: u64,
    pub reasoning: u64,
}

impl Default for Usage {
    fn default() -> (usage: Self)
        ensures
            usage == (Usage { input: 0, cached_input: 0, output: 0, reasoning: 0 }),
    {
        Usage { input: 0, cached_input: 0, output: 0, reasoning: 0 }
    }
}

#[derive(Debug, PartialEq)]
pub struct AgentRecord {
    pub id: String,
    pub spec: AgentSpec,
    pub state: AgentState,
    pub error: Option<String>,
    /// Interrupted: mail waits until the user writes again.
    pub held: bool,
    pub usage: Usage,
    /// Tokens of the latest request.
    pub context_tokens: u64,
}

impl AgentRecord {
    /// Whether tokens can be added up.
    pub open spec fn has_room_for(self, usage: Usage) -> bool {
        &&& self.usage.input + usage.input <= u64::MAX
        &&& self.usage.cached_input + usage.cached_input <= u64::MAX
        &&& self.usage.output + usage.output <= u64::MAX
        &&& self.usage.reasoning + usage.reasoning <= u64::MAX
    }

    /// A call took so many tokens: they add up, and the size of the context is the latest.
    pub fn used(&mut self, usage: Usage)
        requires
            old(self).has_room_for(usage),
        ensures
            *final(self) == (AgentRecord {
                usage: Usage {
                    input: (old(self).usage.input + usage.input) as u64,
                    cached_input: (old(self).usage.cached_input + usage.cached_input) as u64,
                    output: (old(self).usage.output + usage.output) as u64,
                    reasoning: (old(self).usage.reasoning + usage.reasoning) as u64,
                },
                context_tokens: usage.input,
                ..*old(self)
            }),
    {
        self.usage = Usage {
            input: self.usage.input + usage.input,
            cached_input: self.usage.cached_input + usage.cached_input,
            output: self.usage.output + usage.output,
            reasoning: self.usage.reasoning + usage.reasoning,
        };
        self.context_tokens = usage.input;
    }
}

/// Live events for observers. Text deltas are never persisted; items are.
#[derive(Debug, PartialEq, Eq)]
pub enum Observation {
    State { agent: String, state: AgentState },
    Item { agent: String, entry: Entry },
    TextDelta { agent: String, text: String },
}

} // verus!
