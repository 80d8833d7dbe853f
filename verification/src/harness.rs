//! The runtime's decisions. An idle agent costs a database row and a transcript file; nothing of
//! it is in memory. Mail wakes an agent: a task loads its transcript, runs model calls and tools
//! until there is nothing left to answer, then drops everything and exits.

use crate::agent;
use crate::agent::{AgentSpec, AgentState, Entry, Item, Usage};
use crate::json;
use crate::json::{no_fields, parse, sealed, Json};
use crate::machine::MachineSpec;
use crate::paths;
use crate::paths::join;
use crate::provider;
use crate::provider::ToolSpec;
use crate::store;
use crate::store::{Mail, Transcript};
use crate::strings;
use crate::strings::{chars_of, same, text_between, trimmed_end, white_space};
use crate::tools;
use crate::tools::{ToolInfo, ToolOutput};
use vstd::prelude::*;

verus! {

// ---- Registered names ----

/// The last of `names` that is `name`: what is registered later takes the place of what was
/// registered before.
pub open spec fn last_named(names: Seq<Seq<char>>, name: Seq<char>) -> Option<int>
    decreases names.len(),
{
    if names.len() == 0 {
        None
    } else if names.last() == name {
        Some(names.len() - 1)
    } else {
        last_named(names.drop_last(), name)
    }
}

pub open spec fn tool_names(tools: Seq<ToolInfo>) -> Seq<Seq<char>> {
    tools.map_values(|tool: ToolInfo| tool.name@)
}

/// What is registered under a name is what was registered last under it.
pub proof fn law_later_registrations_take_the_place_of_earlier_ones(
    names: Seq<Seq<char>>,
    name: Seq<char>,
)
    ensures
        match last_named(names, name) {
            Some(i) => 0 <= i < names.len() && names[i] == name && forall|k: int|
                #![trigger names[k]]
                i < k < names.len() ==> names[k] != name,
            None => !names.contains(name),
        },
    decreases names.len(),
{
    if names.len() > 0 && names.last() != name {
        law_later_registrations_take_the_place_of_earlier_ones(names.drop_last(), name);
        assert forall|k: int| #![trigger names[k]]
            last_named(names, name) is Some && last_named(names, name)->0 < k
                < names.len() implies names[k] != name by {
            if k < names.len() - 1 {
                assert(names.drop_last()[k] == names[k]);
            }
        }
        if last_named(names.drop_last(), name) is None && names.contains(name) {
            let k = choose|k: int| 0 <= k < names.len() && names[k] == name;
            assert(names.drop_last()[k] == name);
        }
    }
}

/// Where the tool of that name is.
pub fn find_tool(tools: &Vec<ToolInfo>, name: &str) -> (found: Option<usize>)
    ensures
        match found {
            Some(i) => last_named(tool_names(tools@), name@) == Some(i as int) && i < tools@.len()
                && tools@[i as int].name@ == name@,
            None => last_named(tool_names(tools@), name@) is None,
        },
{
    let ghost names = tool_names(tools@);
    let mut at: usize = tools.len();
    assert(names.take(at as int) =~= names);
    while at > 0
        invariant
            at <= tools@.len(),
            names == tool_names(tools@),
            last_named(names, name@) == last_named(names.take(at as int), name@),
        decreases at,
    {
        assert(names.take(at as int).last() == tools@[at - 1].name@);
        assert(names.take(at as int).drop_last() =~= names.take(at - 1));
        if same(tools[at - 1].name.as_str(), name) {
            return Some(at - 1);
        }
        at -= 1;
    }
    None
}

fn is_among(names: &Vec<String>, name: &str) -> (found: bool)
    ensures
        found == strings::texts(names@).contains(name@),
{
    let ghost all = strings::texts(names@);
    let mut i: usize = 0;
    while i < names.len()
        invariant
            i <= names@.len(),
            all == strings::texts(names@),
            forall|k: int| #![trigger all[k]] 0 <= k < i ==> all[k] != name@,
        decreases names@.len() - i,
    {
        assert(all[i as int] == names@[i as int]@);
        if same(names[i].as_str(), name) {
            assert(all.contains(name@));
            return true;
        }
        i += 1;
    }
    false
}

// ---- Specs ----

/// The first tool of a spec that nobody registered.
pub open spec fn first_unknown(
    wanted: Seq<Seq<char>>,
    registered: Seq<Seq<char>>,
    from: int,
) -> Option<Seq<char>>
    decreases wanted.len() - from,
{
    if from < 0 || from >= wanted.len() {
        None
    } else if !registered.contains(wanted[from]) {
        Some(wanted[from])
    } else {
        first_unknown(wanted, registered, from + 1)
    }
}

/// What is wrong with a spec, where something is.
pub open spec fn spec_error(
    spec: AgentSpec,
    providers: Seq<Seq<char>>,
    registered: Seq<Seq<char>>,
    sandboxes: bool,
) -> Option<Seq<char>> {
    if !providers.contains(spec.provider@) {
        Some("unknown provider "@ + spec.provider@)
    } else {
        match first_unknown(strings::texts(spec.tools@), registered, 0) {
            Some(missing) => Some("unknown tool "@ + missing),
            None => if spec.machine is Sandbox && !sandboxes {
                Some("sandboxes are not enabled"@)
            } else {
                None
            },
        }
    }
}

proof fn lemma_first_unknown(wanted: Seq<Seq<char>>, registered: Seq<Seq<char>>, from: int)
    requires
        0 <= from,
    ensures
        match first_unknown(wanted, registered, from) {
            Some(name) => exists|i: int|
                from <= i < wanted.len() && name == #[trigger] wanted[i] && !registered.contains(
                    name,
                ),
            None => forall|i: int| #![trigger wanted[i]]
                from <= i < wanted.len() ==> registered.contains(wanted[i]),
        },
    decreases wanted.len() - from,
{
    if from < wanted.len() && registered.contains(wanted[from]) {
        lemma_first_unknown(wanted, registered, from + 1);
    }
}

/// A spec is accepted exactly where its provider and each of its tools are registered and its
/// machine can be had; otherwise the error names what is missing.
pub proof fn law_a_spec_names_what_is_registered(
    spec: AgentSpec,
    providers: Seq<Seq<char>>,
    registered: Seq<Seq<char>>,
    sandboxes: bool,
)
    ensures
        spec_error(spec, providers, registered, sandboxes) is None <==> {
            &&& providers.contains(spec.provider@)
            &&& forall|i: int| #![trigger spec.tools@[i]]
                0 <= i < spec.tools@.len() ==> registered.contains(spec.tools@[i]@)
            &&& spec.machine is Sandbox ==> sandboxes
        },
        !providers.contains(spec.provider@) ==> spec_error(
            spec,
            providers,
            registered,
            sandboxes,
        ) == Some("unknown provider "@ + spec.provider@),
        providers.contains(spec.provider@) && (exists|i: int|
            0 <= i < spec.tools@.len() && !registered.contains(#[trigger] spec.tools@[i]@))
            ==> exists|i: int|
            0 <= i < spec.tools@.len() && !registered.contains(#[trigger] spec.tools@[i]@)
                && spec_error(spec, providers, registered, sandboxes) == Some(
                "unknown tool "@ + spec.tools@[i]@,
            ),
{
    let wanted = strings::texts(spec.tools@);
    lemma_first_unknown(wanted, registered, 0);
    assert(forall|i: int| #![trigger wanted[i]]
        0 <= i < wanted.len() ==> wanted[i] == spec.tools@[i]@);
    assert(forall|i: int| #![trigger spec.tools@[i]]
        0 <= i < wanted.len() ==> wanted[i] == spec.tools@[i]@);
    match first_unknown(wanted, registered, 0) {
        Some(name) => {
            let i = choose|i: int|
                0 <= i < wanted.len() && name == #[trigger] wanted[i] && !registered.contains(name);
            assert(spec.tools@[i]@ == name);
        },
        None => {},
    }
}

/// A spec names a registered provider and registered tools, and a machine that can be had.
/// A spec that fails this is neither created nor updated to.
pub fn check_spec(
    spec: &AgentSpec,
    providers: &Vec<String>,
    registered: &Vec<String>,
    sandboxes: bool,
) -> (result: Result<(), String>)
    ensures
        match spec_error(
            *spec,
            strings::texts(providers@),
            strings::texts(registered@),
            sandboxes,
        ) {
            Some(wording) => result matches Err(error) && error@ == wording,
            None => result is Ok,
        },
{
    if !is_among(providers, spec.provider.as_str()) {
        let mut error = "unknown provider ".to_owned();
        error.append(spec.provider.as_str());
        return Err(error);
    }
    let ghost wanted = strings::texts(spec.tools@);
    let ghost known = strings::texts(registered@);
    let mut i: usize = 0;
    while i < spec.tools.len()
        invariant
            i <= spec.tools@.len(),
            wanted == strings::texts(spec.tools@),
            known == strings::texts(registered@),
            strings::texts(providers@).contains(spec.provider@),
            first_unknown(wanted, known, 0) == first_unknown(wanted, known, i as int),
        decreases spec.tools@.len() - i,
    {
        assert(wanted[i as int] == spec.tools@[i as int]@);
        if !is_among(registered, spec.tools[i].as_str()) {
            let mut error = "unknown tool ".to_owned();
            error.append(spec.tools[i].as_str());
            return Err(error);
        }
        i += 1;
    }
    match &spec.machine {
        MachineSpec::Sandbox(_) => {
            if !sandboxes {
                return Err("sandboxes are not enabled".to_owned());
            }
        },
        MachineSpec::Direct(_) => {},
    }
    Ok(())
}

/// What is answered where there is no such agent.
pub fn no_agent(id: &str) -> (error: String)
    ensures
        error@ == "No agent "@ + id@,
{
    let mut error = "No agent ".to_owned();
    error.append(id);
    error
}

// ---- Mail ----

/// What a message does to its recipient.
#[derive(Clone, Copy, Debug, PartialEq, Eq, Structural)]
pub struct Effect {
    /// Mail held by an interrupt is released.
    pub release: bool,
    /// The agent starts a turn, or goes on with one.
    pub wake: bool,
}

pub open spec fn effect_of(from: Seq<char>, held: bool) -> Effect {
    Effect { release: from == "user"@ && held, wake: from == "user"@ || !held }
}

/// A user message releases mail held by an interrupt; any other waits with it.
pub fn on_mail(from: &str, held: bool) -> (effect: Effect)
    ensures
        effect == effect_of(from@, held),
{
    let user = same(from, "user");
    Effect { release: user && held, wake: user || !held }
}

/// After an interrupt, mail is held until the user writes; then all of it is delivered.
pub proof fn law_interrupted_agents_wait_for_the_user(from: Seq<char>)
    ensures
        from != "user"@ ==> effect_of(from, true) == (Effect { release: false, wake: false }),
        effect_of("user"@, true) == (Effect { release: true, wake: true }),
        effect_of(from, false) == (Effect { release: false, wake: true }),
{
}

/// Who a message goes to.
#[derive(Clone, Debug, PartialEq, Eq)]
pub enum Address {
    /// Somebody whom the host serves.
    Host,
    /// An agent's inbox.
    Inbox,
}

/// Mail goes to whom the host serves under that name, else to the agent with that id.
pub fn address(to: &str, served: &Vec<String>, is_agent: bool) -> (result: Result<Address, String>)
    ensures
        if strings::texts(served@).contains(to@) {
            result == Ok::<Address, String>(Address::Host)
        } else if is_agent {
            result == Ok::<Address, String>(Address::Inbox)
        } else {
            result matches Err(error) && error@ == "No agent "@ + to@
        },
{
    if is_among(served, to) {
        Ok(Address::Host)
    } else if is_agent {
        Ok(Address::Inbox)
    } else {
        Err(no_agent(to))
    }
}

/// Whether waking an agent starts a task: not while it has one, nor once the harness closes.
pub fn starts_task(closing: bool, running: bool) -> (starts: bool)
    ensures
        starts == (!closing && !running),
{
    !closing && !running
}

/// Whether an agent has settled in a state. Idle means settled: a woken agent may still show its
/// previous state.
pub fn is_settled(current: Option<AgentState>, wanted: AgentState, running: bool) -> (settled: bool)
    ensures
        settled == (current == Some(wanted) && (wanted == AgentState::Running || !running)),
{
    match current {
        Some(state) => state == wanted && (wanted == AgentState::Running || !running),
        None => false,
    }
}

// ---- Tasks ----

/// How a turn ended.
#[derive(Clone, Debug, PartialEq, Eq)]
pub enum Ended {
    Idle,
    Interrupted,
    Closing,
    Failed(String),
}

/// What a task does after a turn.
#[derive(Clone, Debug, PartialEq, Eq)]
pub enum After {
    /// Another turn: mail came in.
    Again,
    /// Leave everything as it is, so that another harness goes on.
    Leave,
    /// Settle in this state.
    Settle { state: AgentState, error: Option<String> },
}

/// Mail that arrived after the last look is picked up here, under the lock that waking takes, so
/// none is stranded.
pub fn after_turn(ended: Ended, closing: bool, has_mail: bool) -> (after: After)
    ensures
        closing ==> after is Leave,
        !closing ==> match ended {
            Ended::Idle => if has_mail {
                after is Again
            } else {
                after == (After::Settle { state: AgentState::Idle, error: None })
            },
            Ended::Interrupted => after == (After::Settle { state: AgentState::Idle, error: None }),
            Ended::Closing => after is Leave,
            Ended::Failed(error) => after == (After::Settle {
                state: AgentState::Failed,
                error: Some(error),
            }),
        },
{
    if closing {
        return After::Leave;
    }
    match ended {
        Ended::Idle => if has_mail {
            After::Again
        } else {
            After::Settle { state: AgentState::Idle, error: None }
        },
        Ended::Interrupted => After::Settle { state: AgentState::Idle, error: None },
        Ended::Closing => After::Leave,
        Ended::Failed(error) => After::Settle { state: AgentState::Failed, error: Some(error) },
    }
}

// ---- Turns ----

/// What a turn does next.
#[derive(Clone, Debug, PartialEq, Eq)]
pub enum Step {
    End(Ended),
    /// Call the model; say first that the agent runs, where nobody was told.
    Call { announce: bool },
    /// Have the model summarize the context first.
    Compact { announce: bool },
}

/// Whether an item awaits the model's answer.
pub open spec fn awaits_answer(item: agent::ItemView) -> bool {
    item is Input || item is ToolResult || item is Compaction
}

/// Nothing but input, results and summaries awaits an answer: a turn ends when the model has said
/// what it had to say.
pub proof fn law_the_model_answers_what_is_not_its_own(item: agent::ItemView)
    ensures
        awaits_answer(item) <==> !(item is Assistant || item is Reasoning || item is ToolCall),
{
}

/// How a turn ends that is cancelled.
pub fn cancelled(cancel: bool, closing: bool) -> (ended: Option<Ended>)
    ensures
        ended == (if !cancel {
            None
        } else if closing {
            Some(Ended::Closing)
        } else {
            Some(Ended::Interrupted)
        }),
{
    if !cancel {
        None
    } else if closing {
        Some(Ended::Closing)
    } else {
        Some(Ended::Interrupted)
    }
}

/// What a turn does once mail is delivered: it ends where nothing awaits an answer. `full` says
/// that the context is to be compacted.
pub fn next_step(transcript: &Transcript, announced: bool, full: bool) -> (step: Step)
    ensures
        ({
            let entries = agent::entry_views(transcript.entries@);
            if entries.len() == 0 || !awaits_answer(entries.last().item) {
                step == Step::End(Ended::Idle)
            } else if full {
                step == (Step::Compact { announce: !announced })
            } else {
                step == (Step::Call { announce: !announced })
            }
        }),
{
    let count: usize = transcript.entries.len();
    let ghost entries = agent::entry_views(transcript.entries@);
    if count == 0 {
        return Step::End(Ended::Idle);
    }
    assert(entries.last() == transcript.entries@[count - 1]@);
    let awaiting = match &transcript.entries[count - 1].item {
        Item::Input { .. } => true,
        Item::ToolResult { .. } => true,
        Item::Compaction { .. } => true,
        _ => false,
    };
    if !awaiting {
        Step::End(Ended::Idle)
    } else if full {
        Step::Compact { announce: !announced }
    } else {
        Step::Call { announce: !announced }
    }
}

/// A call that the model wants to make.
#[derive(Clone, Debug, PartialEq, Eq)]
pub struct Call {
    pub call_id: String,
    pub name: String,
    pub arguments: String,
}

pub ghost struct CallView {
    pub call_id: Seq<char>,
    pub name: Seq<char>,
    pub arguments: Seq<char>,
}

impl View for Call {
    type V = CallView;

    open spec fn view(&self) -> CallView {
        CallView { call_id: self.call_id@, name: self.name@, arguments: self.arguments@ }
    }
}

pub open spec fn call_views(calls: Seq<Call>) -> Seq<CallView> {
    calls.map_values(|call: Call| call@)
}

/// The calls among items, in order.
pub open spec fn calls_among(items: Seq<agent::ItemView>) -> Seq<CallView>
    decreases items.len(),
{
    if items.len() == 0 {
        Seq::empty()
    } else {
        let before = calls_among(items.drop_last());
        match items.last() {
            agent::ItemView::ToolCall { call_id, name, arguments } => before.push(
                CallView { call_id, name, arguments },
            ),
            _ => before,
        }
    }
}

/// Every call of an answer is made, in order, as the model asked for it; nothing else is called.
pub proof fn law_every_call_is_made_in_order(
    before: Seq<agent::ItemView>,
    item: agent::ItemView,
    after: Seq<agent::ItemView>,
)
    ensures
        calls_among(before + seq![item] + after) == calls_among(before) + (match item {
            agent::ItemView::ToolCall { call_id, name, arguments } => seq![
                CallView { call_id, name, arguments },
            ],
            _ => Seq::empty(),
        }) + calls_among(after),
        calls_among(Seq::empty()) == Seq::<CallView>::empty(),
    decreases after.len(),
{
    let all = before + seq![item] + after;
    let own = match item {
        agent::ItemView::ToolCall { call_id, name, arguments } => seq![
            CallView { call_id, name, arguments },
        ],
        _ => Seq::empty(),
    };
    if after.len() == 0 {
        assert(all.drop_last() =~= before);
        assert(all.last() == item);
        assert(calls_among(all) =~= calls_among(before) + own + calls_among(after));
    } else {
        let rest = after.drop_last();
        assert(all.drop_last() =~= before + seq![item] + rest);
        assert(all.last() == after.last());
        law_every_call_is_made_in_order(before, item, rest);
        assert(calls_among(all) =~= calls_among(before) + own + calls_among(after));
    }
}

/// The calls that the model makes in an answer.
pub fn calls_of(items: &Vec<Item>) -> (calls: Vec<Call>)
    ensures
        call_views(calls@) == calls_among(agent::item_views(items@)),
{
    let ghost all = agent::item_views(items@);
    let mut calls: Vec<Call> = Vec::new();
    let mut i: usize = 0;
    assert(all.take(0) =~= Seq::<agent::ItemView>::empty());
    assert(call_views(calls@) =~= Seq::<CallView>::empty());
    while i < items.len()
        invariant
            i <= items@.len(),
            all == agent::item_views(items@),
            call_views(calls@) == calls_among(all.take(i as int)),
        decreases items@.len() - i,
    {
        let ghost now = all.take(i + 1);
        let ghost before = call_views(calls@);
        assert(now.drop_last() =~= all.take(i as int));
        assert(now.last() == items@[i as int]@);
        match &items[i] {
            Item::ToolCall { call_id, name, arguments } => {
                let call = Call {
                    call_id: call_id.clone(),
                    name: name.clone(),
                    arguments: arguments.clone(),
                };
                calls.push(call);
                assert(call_views(calls@) =~= before.push(call@));
            },
            _ => {},
        }
        i += 1;
    }
    assert(all.take(i as int) =~= all);
    calls
}

/// What a call is answered that the turn's interruption skipped.
pub fn skipped() -> (output: ToolOutput)
    ensures
        output@ == tools::said("Tool call skipped: the turn was interrupted."@, true),
{
    ToolOutput::error("Tool call skipped: the turn was interrupted.".to_owned())
}

/// What a call is answered that a stop of the harness cut off.
pub fn interrupted() -> (output: ToolOutput)
    ensures
        output@ == tools::said("Tool call was interrupted before it finished."@, true),
{
    ToolOutput::error("Tool call was interrupted before it finished.".to_owned())
}

// ---- Calls and their results ----

/// The items of a transcript.
pub open spec fn items_of(entries: Seq<agent::EntryView>) -> Seq<agent::ItemView> {
    entries.map_values(|entry: agent::EntryView| entry.item)
}

pub open spec fn is_result_of(item: agent::ItemView, call_id: Seq<char>) -> bool {
    item matches agent::ItemView::ToolResult { call_id: id, .. } && id == call_id
}

pub open spec fn is_answered(items: Seq<agent::ItemView>, call_id: Seq<char>) -> bool {
    exists|i: int| 0 <= i < items.len() && is_result_of(#[trigger] items[i], call_id)
}

/// The ids of calls among the first items that have no result anywhere.
pub open spec fn dangling_among(items: Seq<agent::ItemView>, upto: int) -> Seq<Seq<char>>
    decreases upto,
{
    if upto <= 0 {
        Seq::empty()
    } else {
        let before = dangling_among(items, upto - 1);
        match items[upto - 1] {
            agent::ItemView::ToolCall { call_id, .. } => if is_answered(items, call_id) {
                before
            } else {
                before.push(call_id)
            },
            _ => before,
        }
    }
}

/// The ids of calls that have no result.
pub open spec fn dangling(items: Seq<agent::ItemView>) -> Seq<Seq<char>> {
    dangling_among(items, items.len() as int)
}

/// Whether every call has a result.
pub open spec fn all_answered(items: Seq<agent::ItemView>) -> bool {
    forall|i: int| #![trigger items[i]]
        0 <= i < items.len() ==> (items[i] matches agent::ItemView::ToolCall { call_id, .. }
            ==> is_answered(items, call_id))
}

/// Items as they are written down behind so many entries: one after the other, at a time, and
/// without an event.
pub open spec fn plain_entries(
    count: nat,
    now: u64,
    items: Seq<agent::ItemView>,
) -> Seq<agent::EntryView> {
    Seq::new(
        items.len(),
        |i: int| agent::EntryView { seq: (count + i) as u64, at: now, event: None, item: items[i] },
    )
}

proof fn lemma_plain_items(count: nat, now: u64, items: Seq<agent::ItemView>)
    ensures
        items_of(plain_entries(count, now, items)) == items,
{
    assert(items_of(plain_entries(count, now, items)) =~= items);
}

/// The results that close calls a stop cut off.
pub open spec fn closing_results(call_ids: Seq<Seq<char>>) -> Seq<agent::ItemView> {
    call_ids.map_values(
        |call_id: Seq<char>|
            agent::ItemView::ToolResult {
                call_id,
                output: tools::said("Tool call was interrupted before it finished."@, true),
            },
    )
}

proof fn lemma_dangling_among(items: Seq<agent::ItemView>, upto: int, i: int)
    requires
        0 <= i < upto <= items.len(),
        items[i] is ToolCall,
        !is_answered(items, items[i]->ToolCall_call_id),
    ensures
        dangling_among(items, upto).contains(items[i]->ToolCall_call_id),
    decreases upto,
{
    let wanted = items[i]->ToolCall_call_id;
    let before = dangling_among(items, upto - 1);
    let now = dangling_among(items, upto);
    if i == upto - 1 {
        assert(now.last() == wanted);
    } else {
        lemma_dangling_among(items, upto - 1, i);
        let k = choose|k: int| 0 <= k < before.len() && before[k] == wanted;
        assert(now[k] == wanted);
    }
}

/// Where every call has a result, none dangles.
proof fn lemma_none_dangling(items: Seq<agent::ItemView>, upto: int)
    requires
        0 <= upto <= items.len(),
        all_answered(items),
    ensures
        dangling_among(items, upto) == Seq::<Seq<char>>::empty(),
    decreases upto,
{
    if upto > 0 {
        lemma_none_dangling(items, upto - 1);
        assert(items[upto - 1] is ToolCall ==> is_answered(
            items,
            items[upto - 1]->ToolCall_call_id,
        ));
    }
}

/// A call that dangles is one that was made and has no result.
pub proof fn law_only_calls_without_results_dangle(items: Seq<agent::ItemView>, call_id: Seq<char>)
    ensures
        dangling(items).contains(call_id) <==> (exists|i: int|
            0 <= i < items.len() && (#[trigger] items[i] matches agent::ItemView::ToolCall {
                call_id: id,
                ..
            } && id == call_id)) && !(exists|i: int|
            0 <= i < items.len() && (#[trigger] items[i] matches agent::ItemView::ToolResult {
                call_id: id,
                ..
            } && id == call_id)),
{
    if dangling(items).contains(call_id) {
        lemma_dangling_is_open(items, items.len() as int, call_id);
    }
    if exists|i: int|
        0 <= i < items.len() && (#[trigger] items[i] matches agent::ItemView::ToolCall {
            call_id: id,
            ..
        } && id == call_id) {
        let i = choose|i: int|
            0 <= i < items.len() && (#[trigger] items[i] matches agent::ItemView::ToolCall {
                call_id: id,
                ..
            } && id == call_id);
        if !is_answered(items, call_id) {
            lemma_dangling_among(items, items.len() as int, i);
        }
    }
    assert(is_answered(items, call_id) <==> exists|i: int|
        0 <= i < items.len() && (#[trigger] items[i] matches agent::ItemView::ToolResult {
            call_id: id,
            ..
        } && id == call_id)) by {
        if is_answered(items, call_id) {
            let i = choose|i: int|
                0 <= i < items.len() && is_result_of(#[trigger] items[i], call_id);
            assert(items[i] is ToolResult);
        }
        if exists|i: int|
            0 <= i < items.len() && (#[trigger] items[i] matches agent::ItemView::ToolResult {
                call_id: id,
                ..
            } && id == call_id) {
            let i = choose|i: int|
                0 <= i < items.len() && (#[trigger] items[i] matches agent::ItemView::ToolResult {
                    call_id: id,
                    ..
                } && id == call_id);
            assert(is_result_of(items[i], call_id));
        }
    }
}

/// Where nothing has a result, every call dangles, in the order in which they were made.
pub proof fn law_calls_dangle_in_order(items: Seq<agent::ItemView>)
    requires
        forall|i: int| #![trigger items[i]] 0 <= i < items.len() ==> !(items[i] is ToolResult),
    ensures
        dangling(items) == ids_of(calls_among(items)),
{
    lemma_all_dangle(items, items.len() as int);
    assert(items.take(items.len() as int) =~= items);
}

proof fn lemma_all_dangle(items: Seq<agent::ItemView>, upto: int)
    requires
        forall|i: int| #![trigger items[i]] 0 <= i < items.len() ==> !(items[i] is ToolResult),
        0 <= upto <= items.len(),
    ensures
        dangling_among(items, upto) == ids_of(calls_among(items.take(upto))),
    decreases upto,
{
    if upto > 0 {
        lemma_all_dangle(items, upto - 1);
        let now = items.take(upto);
        let before = calls_among(items.take(upto - 1));
        assert(now.drop_last() =~= items.take(upto - 1));
        assert(now.last() == items[upto - 1]);
        match items[upto - 1] {
            agent::ItemView::ToolCall { call_id, name, arguments } => {
                assert(!is_answered(items, call_id));
                let call = CallView { call_id, name, arguments };
                assert(ids_of(before.push(call)) =~= ids_of(before).push(call_id));
            },
            _ => {},
        }
    } else {
        assert(dangling_among(items, upto) =~= ids_of(calls_among(items.take(upto))));
    }
}

/// A call that a stop cut off is answered that it was interrupted, as an error; and what is written
/// down gets the next numbers, the time, and no event.
pub proof fn law_a_call_that_was_cut_off_is_told_so(
    call_ids: Seq<Seq<char>>,
    count: nat,
    now: u64,
    i: int,
)
    requires
        0 <= i < call_ids.len(),
        count + call_ids.len() <= u64::MAX,
    ensures
        closing_results(call_ids).len() == call_ids.len(),
        ({
            let entry = plain_entries(count, now, closing_results(call_ids))[i];
            &&& entry.seq == count + i && entry.at == now && entry.event is None
            &&& entry.item is ToolResult && entry.item->ToolResult_call_id == call_ids[i]
            &&& entry.item->output.is_error && entry.item->output.delivers is None
            &&& entry.item->output.content.len() == 1
            &&& entry.item->output.content[0] == tools::ContentView::Text(
                "Tool call was interrupted before it finished."@,
            )
        }),
{
}

proof fn lemma_dangling_is_open(items: Seq<agent::ItemView>, upto: int, call_id: Seq<char>)
    requires
        0 <= upto <= items.len(),
        dangling_among(items, upto).contains(call_id),
    ensures
        !is_answered(items, call_id),
        exists|i: int|
            0 <= i < items.len() && (#[trigger] items[i] matches agent::ItemView::ToolCall {
                call_id: id,
                ..
            } && id == call_id),
    decreases upto,
{
    if upto > 0 {
        let before = dangling_among(items, upto - 1);
        let now = dangling_among(items, upto);
        let k = choose|k: int| 0 <= k < now.len() && now[k] == call_id;
        if k < before.len() {
            assert(before[k] == call_id);
            lemma_dangling_is_open(items, upto - 1, call_id);
        } else {
            assert(items[upto - 1] is ToolCall);
        }
    }
}

/// Once the dangling calls are closed, every call has a result: the model needs one for each.
/// Closing them again finds none.
pub proof fn law_closing_answers_every_call(items: Seq<agent::ItemView>)
    ensures
        all_answered(items + closing_results(dangling(items))),
        dangling(items + closing_results(dangling(items))) == Seq::<Seq<char>>::empty(),
{
    let open = dangling(items);
    let results = closing_results(open);
    let all = items + results;
    assert forall|i: int| #![trigger all[i]] 0 <= i < all.len() implies (
    all[i] matches agent::ItemView::ToolCall { call_id, .. } ==> is_answered(all, call_id)) by {
        if all[i] is ToolCall {
            let call_id = all[i]->ToolCall_call_id;
            assert(i < items.len()) by {
                if i >= items.len() {
                    assert(all[i] == results[i - items.len()]);
                }
            }
            assert(items[i] == all[i]);
            if is_answered(items, call_id) {
                let k = choose|k: int|
                    0 <= k < items.len() && is_result_of(#[trigger] items[k], call_id);
                assert(all[k] == items[k]);
                assert(is_result_of(all[k], call_id));
            } else {
                lemma_dangling_among(items, items.len() as int, i);
                let k = choose|k: int| 0 <= k < open.len() && open[k] == call_id;
                assert(all[items.len() + k] == results[k]);
                assert(is_result_of(all[items.len() + k], call_id));
            }
        }
    }
    lemma_none_dangling(all, all.len() as int);
}

/// A round of a turn leaves no call without a result: every call of an answer gets one, whether
/// its tool ran or was skipped.
pub proof fn law_rounds_answer_every_call(
    before: Seq<agent::ItemView>,
    answer: Seq<agent::ItemView>,
    results: Seq<agent::ItemView>,
)
    requires
        all_answered(before),
        results.len() == calls_among(answer).len(),
        forall|i: int| #![trigger results[i]]
            0 <= i < results.len() ==> is_result_of(results[i], calls_among(answer)[i].call_id),
    ensures
        all_answered(before + answer + results),
{
    let all = before + answer + results;
    assert forall|i: int| #![trigger all[i]] 0 <= i < all.len() implies (
    all[i] matches agent::ItemView::ToolCall { call_id, .. } ==> is_answered(all, call_id)) by {
        if all[i] is ToolCall {
            let call_id = all[i]->ToolCall_call_id;
            if i < before.len() {
                assert(before[i] == all[i]);
                let k = choose|k: int|
                    0 <= k < before.len() && is_result_of(#[trigger] before[k], call_id);
                assert(all[k] == before[k]);
                assert(is_result_of(all[k], call_id));
            } else if i < before.len() + answer.len() {
                let j = i - before.len();
                assert(answer[j] == all[i]);
                lemma_call_among(answer, j);
                let calls = calls_among(answer);
                let k = choose|k: int|
                    0 <= k < calls.len() && (#[trigger] calls[k]).call_id == call_id;
                assert(all[before.len() + answer.len() + k] == results[k]);
                assert(is_result_of(all[before.len() + answer.len() + k], call_id));
            } else {
                let k = i - before.len() - answer.len();
                assert(all[i] == results[k]);
            }
        }
    }
}

proof fn lemma_call_among(items: Seq<agent::ItemView>, i: int)
    requires
        0 <= i < items.len(),
        items[i] is ToolCall,
    ensures
        exists|k: int|
            0 <= k < calls_among(items).len() && (#[trigger] calls_among(items)[k]).call_id
                == items[i]->ToolCall_call_id,
    decreases items.len(),
{
    let rest = items.drop_last();
    let before = calls_among(rest);
    let now = calls_among(items);
    if i == items.len() - 1 {
        assert(now[now.len() - 1].call_id == items[i]->ToolCall_call_id);
    } else {
        lemma_call_among(rest, i);
        assert(rest[i] == items[i]);
        let k = choose|k: int|
            0 <= k < before.len() && (#[trigger] before[k]).call_id
                == items[i]->ToolCall_call_id;
        assert(now[k] == before[k]);
    }
}

fn has_result(entries: &Vec<Entry>, call_id: &str) -> (answered: bool)
    ensures
        answered == is_answered(items_of(agent::entry_views(entries@)), call_id@),
{
    let ghost items = items_of(agent::entry_views(entries@));
    let mut i: usize = 0;
    while i < entries.len()
        invariant
            i <= entries@.len(),
            items == items_of(agent::entry_views(entries@)),
            forall|k: int| #![trigger items[k]] 0 <= k < i ==> !is_result_of(items[k], call_id@),
        decreases entries@.len() - i,
    {
        assert(items[i as int] == entries@[i as int].item@);
        match &entries[i].item {
            Item::ToolResult { call_id: id, .. } => {
                if same(id.as_str(), call_id) {
                    assert(is_result_of(items[i as int], call_id@));
                    return true;
                }
            },
            _ => {},
        }
        i += 1;
    }
    false
}

/// A harness that stopped mid-tool leaves calls without results; the model needs one for every
/// call. Returns the entries to write down.
pub fn close_dangling_calls(transcript: &mut Transcript, now: u64) -> (written: Vec<Entry>)
    ensures
        ({
            let before = agent::entry_views(old(transcript).entries@);
            let after = agent::entry_views(final(transcript).entries@);
            let results = closing_results(dangling(items_of(before)));
            &&& agent::entry_views(written@) == plain_entries(before.len(), now, results)
            &&& after == before + agent::entry_views(written@)
            &&& items_of(after) == items_of(before) + results
        }),
{
    let ghost before = agent::entry_views(transcript.entries@);
    let ghost items = items_of(before);
    let mut open: Vec<String> = Vec::new();
    let mut i: usize = 0;
    assert(strings::texts(open@) =~= Seq::<Seq<char>>::empty());
    while i < transcript.entries.len()
        invariant
            i <= transcript.entries@.len(),
            before == agent::entry_views(transcript.entries@),
            items == items_of(before),
            strings::texts(open@) == dangling_among(items, i as int),
        decreases transcript.entries@.len() - i,
    {
        assert(items[i as int] == transcript.entries@[i as int].item@);
        match &transcript.entries[i].item {
            Item::ToolCall { call_id, .. } => {
                if !has_result(&transcript.entries, call_id.as_str()) {
                    let id = call_id.clone();
                    let ghost held = strings::texts(open@);
                    open.push(id);
                    assert(strings::texts(open@) =~= held.push(id@));
                }
            },
            _ => {},
        }
        i += 1;
    }
    assert(items.len() == transcript.entries@.len());
    let ghost ids = strings::texts(open@);
    let mut written: Vec<Entry> = Vec::new();
    let mut next: usize = 0;
    let ghost plain = plain_entries(before.len(), now, closing_results(ids));
    assert(before + agent::entry_views(written@) =~= before);
    assert(agent::entry_views(written@) =~= plain.take(0));
    while next < open.len()
        invariant
            next <= open@.len(),
            ids == strings::texts(open@),
            plain == plain_entries(before.len(), now, closing_results(ids)),
            agent::entry_views(transcript.entries@) == before + agent::entry_views(written@),
            agent::entry_views(written@) == plain.take(next as int),
        decreases open@.len() - next,
    {
        let ghost wrote = agent::entry_views(written@);
        assert(transcript.entries@.len() == (before + wrote).len());
        let entry = transcript.append(
            Item::ToolResult { call_id: open[next].clone(), output: interrupted() },
            None,
            now,
        );
        written.push(entry);
        proof {
            assert(agent::entry_views(written@) =~= wrote.push(entry@));
            assert(before + wrote.push(entry@) =~= (before + wrote).push(entry@));
            assert(entry@.item == closing_results(ids)[next as int]);
            assert(entry@ == plain[next as int]);
            assert(plain.take(next + 1) =~= plain.take(next as int).push(entry@));
        }
        next += 1;
    }
    proof {
        assert(plain.take(next as int) =~= plain);
        lemma_plain_items(before.len(), now, closing_results(ids));
        assert(items_of(before + plain) =~= items_of(before) + items_of(plain));
    }
    written
}

// ---- Delivery ----

/// Where mail is in a transcript: the number of the last entry that delivered it.
pub open spec fn delivered_at(entries: Seq<agent::EntryView>, id: i64) -> Option<u64>
    decreases entries.len(),
{
    if entries.len() == 0 {
        None
    } else if entries.last().event == Some(id) {
        Some(entries.last().seq)
    } else {
        delivered_at(entries.drop_last(), id)
    }
}

/// Mail as a transcript entry.
pub open spec fn mail_entry(seq: nat, now: u64, mail: store::MailView) -> agent::EntryView {
    agent::EntryView {
        seq: seq as u64,
        at: now,
        event: Some(mail.id),
        item: agent::ItemView::Input { from: mail.from, text: mail.text },
    }
}

/// A transcript after mail was delivered: mail that is not in it is appended.
pub open spec fn after_delivery(
    entries: Seq<agent::EntryView>,
    mail: Seq<store::MailView>,
    now: u64,
) -> Seq<agent::EntryView>
    decreases mail.len(),
{
    if mail.len() == 0 {
        entries
    } else {
        let before = after_delivery(entries, mail.drop_last(), now);
        if delivered_at(entries, mail.last().id) is Some {
            before
        } else {
            before.push(mail_entry(before.len(), now, mail.last()))
        }
    }
}

/// Which entry delivered each mail.
pub open spec fn deliveries(
    entries: Seq<agent::EntryView>,
    mail: Seq<store::MailView>,
    now: u64,
) -> Seq<(i64, u64)>
    decreases mail.len(),
{
    if mail.len() == 0 {
        Seq::empty()
    } else {
        let last = mail.last();
        deliveries(entries, mail.drop_last(), now).push(
            (
                last.id,
                match delivered_at(entries, last.id) {
                    Some(seq) => seq,
                    None => after_delivery(entries, mail.drop_last(), now).len() as u64,
                },
            ),
        )
    }
}

pub open spec fn distinct_ids(mail: Seq<store::MailView>) -> bool {
    forall|i: int, j: int| #![trigger mail[i], mail[j]]
        0 <= i < j < mail.len() ==> mail[i].id != mail[j].id
}

proof fn lemma_distinct_shorter(mail: Seq<store::MailView>)
    requires
        distinct_ids(mail),
        mail.len() > 0,
    ensures
        distinct_ids(mail.drop_last()),
        forall|i: int| #![trigger mail.drop_last()[i]]
            0 <= i < mail.len() - 1 ==> mail.drop_last()[i].id != mail.last().id,
{
    let rest = mail.drop_last();
    assert forall|i: int, j: int| #![trigger rest[i], rest[j]] 0 <= i < j < rest.len() implies rest[i].id
        != rest[j].id by {
        assert(rest[i] == mail[i] && rest[j] == mail[j]);
    }
    assert forall|i: int| #![trigger rest[i]] 0 <= i < rest.len() implies rest[i].id
        != mail.last().id by {
        assert(rest[i] == mail[i]);
        assert(mail.last() == mail[mail.len() - 1]);
    }
}

/// Delivering mail leaves other mail where it was.
proof fn lemma_delivered_elsewhere(
    entries: Seq<agent::EntryView>,
    mail: Seq<store::MailView>,
    now: u64,
    id: i64,
)
    requires
        forall|i: int| #![trigger mail[i]] 0 <= i < mail.len() ==> mail[i].id != id,
    ensures
        delivered_at(after_delivery(entries, mail, now), id) == delivered_at(entries, id),
    decreases mail.len(),
{
    if mail.len() > 0 {
        let rest = mail.drop_last();
        assert forall|i: int| #![trigger rest[i]] 0 <= i < rest.len() implies rest[i].id != id by {
            assert(rest[i] == mail[i]);
        }
        lemma_delivered_elsewhere(entries, rest, now, id);
        let before = after_delivery(entries, rest, now);
        let entry = mail_entry(before.len(), now, mail.last());
        assert(mail.last() == mail[mail.len() - 1]);
        assert(before.push(entry).drop_last() =~= before);
    }
}

/// Every mail is where its delivery says.
proof fn lemma_delivered_here(
    entries: Seq<agent::EntryView>,
    mail: Seq<store::MailView>,
    now: u64,
    i: int,
)
    requires
        distinct_ids(mail),
        0 <= i < mail.len(),
    ensures
        deliveries(entries, mail, now).len() == mail.len(),
        deliveries(entries, mail, now)[i].0 == mail[i].id,
        delivered_at(after_delivery(entries, mail, now), mail[i].id) == Some(
            deliveries(entries, mail, now)[i].1,
        ),
    decreases mail.len(),
{
    let rest = mail.drop_last();
    let last = mail.last();
    let before = after_delivery(entries, rest, now);
    let entry = mail_entry(before.len(), now, last);
    lemma_distinct_shorter(mail);
    lemma_deliveries_len(entries, rest, now);
    assert(before.push(entry).drop_last() =~= before);
    if i < rest.len() {
        assert(rest[i] == mail[i]);
        lemma_delivered_here(entries, rest, now, i);
        assert(mail[i].id != last.id);
        assert(deliveries(entries, mail, now)[i] == deliveries(entries, rest, now)[i]);
    } else {
        assert(mail[i] == last);
        assert forall|k: int| #![trigger rest[k]] 0 <= k < rest.len() implies rest[k].id
            != last.id by {}
        lemma_delivered_elsewhere(entries, rest, now, last.id);
    }
}

proof fn lemma_deliveries_len(entries: Seq<agent::EntryView>, mail: Seq<store::MailView>, now: u64)
    ensures
        deliveries(entries, mail, now).len() == mail.len(),
    decreases mail.len(),
{
    if mail.len() > 0 {
        lemma_deliveries_len(entries, mail.drop_last(), now);
    }
}

/// Delivering mail that is all in the transcript changes nothing.
proof fn lemma_all_delivered(
    entries: Seq<agent::EntryView>,
    mail: Seq<store::MailView>,
    found: Seq<(i64, u64)>,
    now: u64,
)
    requires
        found.len() == mail.len(),
        forall|i: int| #![trigger mail[i]]
            0 <= i < mail.len() ==> found[i].0 == mail[i].id && delivered_at(entries, mail[i].id)
                == Some(found[i].1),
    ensures
        after_delivery(entries, mail, now) == entries,
        deliveries(entries, mail, now) == found,
    decreases mail.len(),
{
    if mail.len() > 0 {
        let rest = mail.drop_last();
        let less = found.drop_last();
        assert forall|i: int| #![trigger rest[i]] 0 <= i < rest.len() implies less[i].0
            == rest[i].id && delivered_at(entries, rest[i].id) == Some(less[i].1) by {
            assert(rest[i] == mail[i]);
            assert(less[i] == found[i]);
        }
        lemma_all_delivered(entries, rest, less, now);
        assert(mail.last() == mail[mail.len() - 1]);
        assert(found.last() == found[found.len() - 1]);
        assert(deliveries(entries, mail, now) =~= found);
    } else {
        assert(deliveries(entries, mail, now) =~= found);
    }
}

/// Mail that was not delivered yet becomes input in the order in which it came, each with who it
/// is from, what it says, and its own number; and it is marked with the entry that holds it.
pub proof fn law_mail_is_delivered_in_order(
    entries: Seq<agent::EntryView>,
    mail: Seq<store::MailView>,
    now: u64,
)
    requires
        forall|i: int, k: int| #![trigger mail[i], entries[k]]
            0 <= i < mail.len() && 0 <= k < entries.len() ==> entries[k].event != Some(mail[i].id),
    ensures
        after_delivery(entries, mail, now).len() == entries.len() + mail.len(),
        after_delivery(entries, mail, now).take(entries.len() as int) == entries,
        forall|i: int| #![trigger mail[i]]
            0 <= i < mail.len() ==> after_delivery(entries, mail, now)[entries.len() + i] == (
            agent::EntryView {
                seq: (entries.len() + i) as u64,
                at: now,
                event: Some(mail[i].id),
                item: agent::ItemView::Input { from: mail[i].from, text: mail[i].text },
            }) && deliveries(entries, mail, now)[i] == (mail[i].id, (entries.len() + i) as u64),
    decreases mail.len(),
{
    lemma_deliveries_len(entries, mail, now);
    if mail.len() == 0 {
        assert(entries.take(entries.len() as int) =~= entries);
    } else {
        let rest = mail.drop_last();
        let before = after_delivery(entries, rest, now);
        let after = after_delivery(entries, mail, now);
        assert forall|i: int, k: int| #![trigger rest[i], entries[k]]
            0 <= i < rest.len() && 0 <= k < entries.len() implies entries[k].event != Some(
            rest[i].id,
        ) by {
            assert(rest[i] == mail[i]);
        }
        law_mail_is_delivered_in_order(entries, rest, now);
        lemma_deliveries_len(entries, rest, now);
        assert(mail.last() == mail[mail.len() - 1]);
        assert forall|k: int| #![trigger entries[k]] 0 <= k < entries.len() implies
            entries[k].event != Some(mail.last().id) by {
            assert(mail[mail.len() - 1].id == mail.last().id);
        }
        lemma_not_delivered(entries, mail.last().id);
        assert(after.take(entries.len() as int) =~= before.take(entries.len() as int));
        assert forall|i: int| #![trigger mail[i]] 0 <= i < mail.len() implies after[entries.len()
            + i] == (agent::EntryView {
            seq: (entries.len() + i) as u64,
            at: now,
            event: Some(mail[i].id),
            item: agent::ItemView::Input { from: mail[i].from, text: mail[i].text },
        }) && deliveries(entries, mail, now)[i] == (mail[i].id, (entries.len() + i) as u64) by {
            if i < rest.len() {
                assert(rest[i] == mail[i]);
                assert(after[entries.len() + i] == before[entries.len() + i]);
            }
        }
    }
}

proof fn lemma_not_delivered(entries: Seq<agent::EntryView>, id: i64)
    requires
        forall|k: int| #![trigger entries[k]] 0 <= k < entries.len() ==> entries[k].event != Some(
            id,
        ),
    ensures
        delivered_at(entries, id) is None,
    decreases entries.len(),
{
    if entries.len() > 0 {
        let rest = entries.drop_last();
        assert(entries.last() == entries[entries.len() - 1]);
        assert forall|k: int| #![trigger rest[k]] 0 <= k < rest.len() implies rest[k].event
            != Some(id) by {
            assert(rest[k] == entries[k]);
        }
        lemma_not_delivered(rest, id);
    }
}

/// Delivery is idempotent: a crash between the append and the database update delivers the same
/// mail again, which appends nothing and marks it with the same entries.
pub proof fn law_delivery_is_idempotent(
    entries: Seq<agent::EntryView>,
    mail: Seq<store::MailView>,
    now: u64,
    later: u64,
)
    requires
        distinct_ids(mail),
    ensures
        ({
            let once = after_delivery(entries, mail, now);
            &&& after_delivery(once, mail, later) == once
            &&& deliveries(once, mail, later) == deliveries(entries, mail, now)
        }),
{
    let once = after_delivery(entries, mail, now);
    let found = deliveries(entries, mail, now);
    lemma_deliveries_len(entries, mail, now);
    assert forall|i: int| #![trigger mail[i]] 0 <= i < mail.len() implies found[i].0 == mail[i].id
        && delivered_at(once, mail[i].id) == Some(found[i].1) by {
        lemma_delivered_here(entries, mail, now, i);
    }
    lemma_all_delivered(once, mail, found, later);
}

/// A reply that a waiting call handed over is not delivered again: an entry that carries its
/// event stands for it.
pub proof fn law_handed_over_mail_is_not_delivered(
    entries: Seq<agent::EntryView>,
    handed: agent::EntryView,
    mail: store::MailView,
    now: u64,
)
    requires
        handed.event == Some(mail.id),
    ensures
        after_delivery(entries.push(handed), seq![mail], now) == entries.push(handed),
{
    let all = entries.push(handed);
    assert(all.last() == handed);
    let one = seq![mail];
    assert(one.drop_last() =~= Seq::<store::MailView>::empty());
    assert(after_delivery(all, one.drop_last(), now) == all);
}

/// What is written down without an event delivers no mail: all mail stays where it was.
pub proof fn law_plain_entries_deliver_nothing(
    entries: Seq<agent::EntryView>,
    now: u64,
    items: Seq<agent::ItemView>,
    id: i64,
)
    ensures
        delivered_at(entries + plain_entries(entries.len(), now, items), id) == delivered_at(
            entries,
            id,
        ),
    decreases items.len(),
{
    let plain = plain_entries(entries.len(), now, items);
    let all = entries + plain;
    if items.len() == 0 {
        assert(all =~= entries);
    } else {
        let rest = items.drop_last();
        law_plain_entries_deliver_nothing(entries, now, rest, id);
        assert(all.last() == plain.last());
        assert(all.drop_last() =~= entries + plain_entries(entries.len(), now, rest));
    }
}

/// The result of a call delivers the mail that it hands over, and no other.
pub proof fn law_results_deliver_what_they_hand_over(
    entries: Seq<agent::EntryView>,
    result: agent::EntryView,
    id: i64,
)
    ensures
        delivered_at(entries.push(result), id) == (if result.event == Some(id) {
            Some(result.seq)
        } else {
            delivered_at(entries, id)
        }),
{
    assert(entries.push(result).drop_last() =~= entries);
}

/// Mail that waits when a round begins is part of it: what was not in the transcript is appended
/// as input, with its event, and so the model is called.
pub proof fn law_waiting_mail_is_answered(
    entries: Seq<agent::EntryView>,
    mail: Seq<store::MailView>,
    now: u64,
    i: int,
)
    requires
        0 <= i < mail.len(),
        delivered_at(entries, mail[i].id) is None,
    ensures
        ({
            let after = after_delivery(entries, mail, now);
            &&& exists|k: int|
                #![trigger after[k]]
                entries.len() <= k < after.len() && after[k] == mail_entry(k as nat, now, mail[i])
            &&& awaits_answer(after.last().item)
        }),
    decreases mail.len(),
{
    let after = after_delivery(entries, mail, now);
    let rest = mail.drop_last();
    let before = after_delivery(entries, rest, now);
    lemma_delivery_adds_input(entries, mail, now);
    lemma_delivery_adds_input(entries, rest, now);
    if i < rest.len() {
        assert(rest[i] == mail[i]);
        law_waiting_mail_is_answered(entries, rest, now, i);
        let k = choose|k: int|
            #![trigger before[k]]
            entries.len() <= k < before.len() && before[k] == mail_entry(k as nat, now, rest[i]);
        assert(after[k] == before[k]);
    } else {
        assert(mail.last() == mail[i]);
        assert(after[before.len() as int] == mail_entry(before.len(), now, mail[i]));
    }
    assert(after.last() == after[after.len() - 1]);
}

fn where_delivered(entries: &Vec<Entry>, count: usize, id: i64) -> (seq: Option<u64>)
    requires
        count <= entries@.len(),
    ensures
        seq == delivered_at(agent::entry_views(entries@).take(count as int), id),
{
    let ghost all = agent::entry_views(entries@);
    let mut at: usize = count;
    while at > 0
        invariant
            at <= count <= entries@.len(),
            all == agent::entry_views(entries@),
            delivered_at(all.take(count as int), id) == delivered_at(all.take(at as int), id),
        decreases at,
    {
        assert(all.take(at as int).last() == entries@[at - 1]@);
        assert(all.take(at as int).drop_last() =~= all.take(at - 1));
        match entries[at - 1].event {
            Some(event) => {
                if event == id {
                    return Some(entries[at - 1].seq);
                }
            },
            None => {},
        }
        at -= 1;
    }
    None
}

/// What a delivery did.
#[derive(Debug, PartialEq, Eq)]
pub struct Delivery {
    /// Entries to write down.
    pub written: Vec<Entry>,
    /// Mail to mark as delivered, and by which entry.
    pub marks: Vec<(i64, u64)>,
}

/// Appends queued mail as input. Mail already in the transcript (a crash between the append and
/// the database update) is only marked delivered.
pub fn deliver(transcript: &mut Transcript, pending: &Vec<Mail>, now: u64) -> (delivery: Delivery)
    ensures
        ({
            let before = agent::entry_views(old(transcript).entries@);
            let after = agent::entry_views(final(transcript).entries@);
            let mail = store::mail_views(pending@);
            &&& after == after_delivery(before, mail, now)
            &&& after == before + agent::entry_views(delivery.written@)
            &&& delivery.marks@ == deliveries(before, mail, now)
        }),
{
    let ghost before = agent::entry_views(transcript.entries@);
    let ghost mail = store::mail_views(pending@);
    let count: usize = transcript.entries.len();
    let mut written: Vec<Entry> = Vec::new();
    let mut marks: Vec<(i64, u64)> = Vec::new();
    let mut i: usize = 0;
    assert(mail.take(0) =~= Seq::<store::MailView>::empty());
    assert(before + agent::entry_views(written@) =~= before);
    while i < pending.len()
        invariant
            i <= pending@.len(),
            mail == store::mail_views(pending@),
            count == before.len(),
            agent::entry_views(transcript.entries@) == after_delivery(
                before,
                mail.take(i as int),
                now,
            ),
            agent::entry_views(transcript.entries@) == before + agent::entry_views(written@),
            marks@ == deliveries(before, mail.take(i as int), now),
        decreases pending@.len() - i,
    {
        let ghost so_far = agent::entry_views(transcript.entries@);
        let ghost wrote = agent::entry_views(written@);
        let ghost one = mail[i as int];
        proof {
            assert(one == pending@[i as int]@);
            assert(mail.take(i + 1).drop_last() =~= mail.take(i as int));
            assert(mail.take(i + 1).last() == one);
            assert(so_far.take(count as int) =~= before);
            assert(transcript.entries@.len() == so_far.len() == (before + wrote).len());
        }
        let id: i64 = pending[i].id;
        match where_delivered(&transcript.entries, count, id) {
            Some(seq) => {
                marks.push((id, seq));
            },
            None => {
                let seq: u64 = transcript.entries.len() as u64;
                let item = Item::Input {
                    from: pending[i].from.clone(),
                    text: pending[i].text.clone(),
                };
                let entry = transcript.append(item, Some(id), now);
                written.push(entry);
                marks.push((id, seq));
                proof {
                    assert(agent::entry_views(written@) =~= wrote.push(entry@));
                    assert(before + wrote.push(entry@) =~= (before + wrote).push(entry@));
                }
            },
        }
        i += 1;
    }
    assert(mail.take(i as int) =~= mail);
    Delivery { written, marks }
}

// ---- A turn ----

/// Whether every call but those still to be run has a result.
pub open spec fn answered_but(items: Seq<agent::ItemView>, waiting: Seq<Seq<char>>) -> bool {
    forall|i: int| #![trigger items[i]]
        0 <= i < items.len() ==> (items[i] matches agent::ItemView::ToolCall { call_id, .. }
            ==> is_answered(items, call_id) || waiting.contains(call_id))
}

pub open spec fn ids_of(calls: Seq<CallView>) -> Seq<Seq<char>> {
    calls.map_values(|call: CallView| call.call_id)
}

/// More items keep what was answered.
proof fn lemma_answered_grows(
    items: Seq<agent::ItemView>,
    more: Seq<agent::ItemView>,
    waiting: Seq<Seq<char>>,
)
    requires
        answered_but(items, waiting),
        forall|i: int| #![trigger more[i]]
            0 <= i < more.len() ==> (more[i] matches agent::ItemView::ToolCall { call_id, .. }
                ==> waiting.contains(call_id)),
    ensures
        answered_but(items + more, waiting),
{
    let all = items + more;
    assert forall|i: int| #![trigger all[i]] 0 <= i < all.len() implies (
    all[i] matches agent::ItemView::ToolCall { call_id, .. } ==> is_answered(all, call_id)
        || waiting.contains(call_id)) by {
        if all[i] is ToolCall {
            let call_id = all[i]->ToolCall_call_id;
            if i < items.len() {
                assert(items[i] == all[i]);
                if is_answered(items, call_id) {
                    let k = choose|k: int|
                        0 <= k < items.len() && is_result_of(#[trigger] items[k], call_id);
                    assert(all[k] == items[k]);
                    assert(is_result_of(all[k], call_id));
                }
            } else {
                assert(more[i - items.len()] == all[i]);
            }
        }
    }
}

/// A result takes its call off the list.
proof fn lemma_result_answers(
    items: Seq<agent::ItemView>,
    result: agent::ItemView,
    waiting: Seq<Seq<char>>,
)
    requires
        answered_but(items, waiting),
        waiting.len() > 0,
        is_result_of(result, waiting[0]),
    ensures
        answered_but(items.push(result), waiting.skip(1)),
{
    let all = items.push(result);
    let rest = waiting.skip(1);
    assert forall|i: int| #![trigger all[i]] 0 <= i < all.len() implies (
    all[i] matches agent::ItemView::ToolCall { call_id, .. } ==> is_answered(all, call_id)
        || rest.contains(call_id)) by {
        if all[i] is ToolCall {
            let call_id = all[i]->ToolCall_call_id;
            assert(i < items.len());
            assert(items[i] == all[i]);
            if is_answered(items, call_id) {
                let k = choose|k: int|
                    0 <= k < items.len() && is_result_of(#[trigger] items[k], call_id);
                assert(all[k] == items[k]);
                assert(is_result_of(all[k], call_id));
            } else {
                let k = choose|k: int| 0 <= k < waiting.len() && waiting[k] == call_id;
                if k == 0 {
                    assert(is_result_of(all[items.len() as int], call_id));
                } else {
                    assert(rest[k - 1] == call_id);
                }
            }
        }
    }
}

/// A turn in progress: the transcript, and the calls of the last answer that are still to be
/// run.
pub struct Turn {
    transcript: Transcript,
    announced: bool,
    full: bool,
    calls: Vec<Call>,
    ran: usize,
}

impl Turn {
    /// The transcript as far as it is written.
    pub closed spec fn entries(self) -> Seq<agent::EntryView> {
        agent::entry_views(self.transcript.entries@)
    }

    pub open spec fn items(self) -> Seq<agent::ItemView> {
        items_of(self.entries())
    }

    pub closed spec fn announced(self) -> bool {
        self.announced
    }

    /// Whether the context is to be compacted before the next call.
    pub closed spec fn full(self) -> bool {
        self.full
    }

    /// The calls that are still to be run.
    pub closed spec fn waiting(self) -> Seq<CallView> {
        call_views(self.calls@).skip(self.ran as int)
    }

    /// Every call but those still to be run has a result.
    pub closed spec fn well_formed(self) -> bool {
        self.ran <= self.calls@.len() && answered_but(self.items(), ids_of(self.waiting()))
    }

    /// Takes up an agent's transcript: calls that a stop cut off are closed first. Returns the
    /// entries to write down.
    pub fn begin(transcript: Transcript, running: bool, now: u64) -> (begun: (Turn, Vec<Entry>))
        ensures
            begun.0.well_formed(),
            begun.0.waiting().len() == 0,
            begun.0.announced() == running,
            !begun.0.full(),
            ({
                let before = agent::entry_views(transcript.entries@);
                let results = closing_results(dangling(items_of(before)));
                &&& agent::entry_views(begun.1@) == plain_entries(before.len(), now, results)
                &&& begun.0.entries() == before + agent::entry_views(begun.1@)
                &&& begun.0.items() == items_of(before) + results
                &&& forall|id: i64| #[trigger]
                    delivered_at(begun.0.entries(), id) == delivered_at(before, id)
            }),
    {
        let mut transcript = transcript;
        let ghost before = agent::entry_views(transcript.entries@);
        let ghost items = items_of(agent::entry_views(transcript.entries@));
        let written = close_dangling_calls(&mut transcript, now);
        let calls: Vec<Call> = Vec::new();
        let turn = Turn { transcript, announced: running, full: false, calls, ran: 0 };
        proof {
            law_closing_answers_every_call(items);
            assert(turn.waiting() =~= Seq::<CallView>::empty());
            assert forall|id: i64| #[trigger] delivered_at(turn.entries(), id) == delivered_at(
                before,
                id,
            ) by {
                law_plain_entries_deliver_nothing(before, now, closing_results(dangling(items)), id);
            }
        }
        (turn, written)
    }

    /// Delivers mail. It is delivered between rounds only, never between a call and its result.
    pub fn deliver(&mut self, pending: &Vec<Mail>, now: u64) -> (delivery: Delivery)
        requires
            old(self).well_formed(),
            old(self).waiting().len() == 0,
        ensures
            final(self).well_formed(),
            final(self).waiting().len() == 0,
            final(self).announced() == old(self).announced(),
            final(self).full() == old(self).full(),
            ({
                let before = old(self).entries();
                let after = final(self).entries();
                let mail = store::mail_views(pending@);
                &&& after == after_delivery(before, mail, now)
                &&& after == before + agent::entry_views(delivery.written@)
                &&& delivery.marks@ == deliveries(before, mail, now)
            }),
    {
        let ghost before = agent::entry_views(self.transcript.entries@);
        let ghost old_waiting = self.waiting();
        let ghost mail = store::mail_views(pending@);
        let delivery = deliver(&mut self.transcript, pending, now);
        proof {
            let more = agent::entry_views(delivery.written@);
            lemma_delivery_adds_input(before, mail, now);
            assert(items_of(before + more) =~= items_of(before) + items_of(more));
            let added = items_of(more);
            assert forall|i: int| #![trigger added[i]] 0 <= i < added.len() implies (
            added[i] matches agent::ItemView::ToolCall { call_id, .. } ==> ids_of(
                old_waiting,
            ).contains(call_id)) by {
                assert((before + more)[before.len() + i] == more[i]);
            }
            lemma_answered_grows(items_of(before), added, ids_of(old_waiting));
        }
        delivery
    }

    /// What the turn does once mail is delivered.
    pub fn next(&self) -> (step: Step)
        requires
            self.well_formed(),
            self.waiting().len() == 0,
        ensures
            all_answered(self.items()),
            if self.items().len() == 0 || !awaits_answer(self.items().last()) {
                step == Step::End(Ended::Idle)
            } else if self.full() {
                step == (Step::Compact { announce: !self.announced() })
            } else {
                step == (Step::Call { announce: !self.announced() })
            },
    {
        proof {
            let items = self.items();
            assert forall|i: int| #![trigger items[i]] 0 <= i < items.len() implies (
            items[i] matches agent::ItemView::ToolCall { call_id, .. } ==> is_answered(
                items,
                call_id,
            )) by {}
        }
        next_step(&self.transcript, self.announced, self.full)
    }

    /// The transcript as far as it is written.
    pub fn transcript(&self) -> (transcript: &Transcript)
        ensures
            agent::entry_views(transcript.entries@) == self.entries(),
    {
        &self.transcript
    }

    /// Observers were told that the agent runs.
    pub fn announce(&mut self)
        requires
            old(self).well_formed(),
        ensures
            final(self).well_formed(),
            final(self).announced(),
            final(self).full() == old(self).full(),
            final(self).entries() == old(self).entries(),
            final(self).waiting() == old(self).waiting(),
    {
        self.announced = true;
    }

    fn append_all(&mut self, items: Vec<Item>, now: u64) -> (written: Vec<Entry>)
        ensures
            final(self).announced == old(self).announced,
            final(self).full == old(self).full,
            final(self).calls == old(self).calls,
            final(self).ran == old(self).ran,
            final(self).entries() == old(self).entries() + agent::entry_views(written@),
            agent::entry_views(written@) == plain_entries(
                old(self).entries().len(),
                now,
                agent::item_views(items@),
            ),
            final(self).items() == old(self).items() + agent::item_views(items@),
    {
        let ghost before = agent::entry_views(self.transcript.entries@);
        let ghost all = agent::item_views(items@);
        let ghost plain = plain_entries(before.len(), now, all);
        let mut written: Vec<Entry> = Vec::new();
        let mut i: usize = 0;
        assert(before + agent::entry_views(written@) =~= before);
        assert(agent::entry_views(written@) =~= plain.take(0));
        while i < items.len()
            invariant
                i <= items@.len(),
                all == agent::item_views(items@),
                plain == plain_entries(before.len(), now, all),
                self.announced == old(self).announced,
                self.full == old(self).full,
                self.calls == old(self).calls,
                self.ran == old(self).ran,
                agent::entry_views(self.transcript.entries@) == before + agent::entry_views(
                    written@,
                ),
                agent::entry_views(written@) == plain.take(i as int),
            decreases items@.len() - i,
        {
            let ghost wrote = agent::entry_views(written@);
            assert(self.transcript.entries@.len() == (before + wrote).len());
            let entry = self.transcript.append(items[i].copied(), None, now);
            written.push(entry);
            proof {
                assert(agent::entry_views(written@) =~= wrote.push(entry@));
                assert(before + wrote.push(entry@) =~= (before + wrote).push(entry@));
                assert(entry@ == plain[i as int]);
                assert(plain.take(i + 1) =~= plain.take(i as int).push(entry@));
            }
            i += 1;
        }
        proof {
            assert(plain.take(i as int) =~= plain);
            lemma_plain_items(before.len(), now, all);
            assert(items_of(before + plain) =~= items_of(before) + items_of(plain));
        }
        written
    }

    /// Takes the model's answer: its items are written down, and its calls are to be run. `full`
    /// says whether the context is to be compacted before the next call.
    pub fn answer(&mut self, items: Vec<Item>, full: bool, now: u64) -> (written: Vec<Entry>)
        requires
            old(self).well_formed(),
            old(self).waiting().len() == 0,
        ensures
            final(self).well_formed(),
            final(self).announced() == old(self).announced(),
            final(self).full() == full,
            final(self).items() == old(self).items() + agent::item_views(items@),
            final(self).waiting() == calls_among(agent::item_views(items@)),
            agent::entry_views(written@) == plain_entries(
                old(self).entries().len(),
                now,
                agent::item_views(items@),
            ),
            final(self).entries() == old(self).entries() + agent::entry_views(written@),
            forall|id: i64| #[trigger]
                delivered_at(final(self).entries(), id) == delivered_at(old(self).entries(), id),
    {
        let ghost entries = self.entries();
        let ghost before = self.items();
        let ghost all = agent::item_views(items@);
        let ghost old_waiting = self.waiting();
        let calls = calls_of(&items);
        let written = self.append_all(items, now);
        self.calls = calls;
        self.ran = 0;
        self.full = full;
        proof {
            let waiting = self.waiting();
            assert(waiting =~= calls_among(all));
            let ids = ids_of(waiting);
            assert(answered_but(before, ids)) by {
                assert forall|i: int| #![trigger before[i]] 0 <= i < before.len() implies (
                before[i] matches agent::ItemView::ToolCall { call_id, .. } ==> is_answered(
                    before,
                    call_id,
                ) || ids.contains(call_id)) by {
                    assert(ids_of(old_waiting).len() == 0);
                }
            }
            assert forall|i: int| #![trigger all[i]] 0 <= i < all.len() implies (
            all[i] matches agent::ItemView::ToolCall { call_id, .. } ==> ids.contains(call_id)) by {
                if all[i] is ToolCall {
                    lemma_call_among(all, i);
                    let calls = calls_among(all);
                    let k = choose|k: int|
                        0 <= k < calls.len() && (#[trigger] calls[k]).call_id
                            == all[i]->ToolCall_call_id;
                    assert(ids[k] == calls[k].call_id);
                }
            }
            lemma_answered_grows(before, all, ids);
            assert forall|id: i64| #[trigger] delivered_at(self.entries(), id) == delivered_at(
                entries,
                id,
            ) by {
                law_plain_entries_deliver_nothing(entries, now, all, id);
            }
        }
        written
    }

    /// The next call to run.
    pub fn call(&self) -> (call: Option<&Call>)
        requires
            self.well_formed(),
        ensures
            match call {
                Some(call) => self.waiting().len() > 0 && call@ == self.waiting()[0],
                None => self.waiting().len() == 0,
            },
    {
        if self.ran < self.calls.len() {
            Some(&self.calls[self.ran])
        } else {
            None
        }
    }

    /// Takes the result of the call that was next. Mail that the result hands over is marked in
    /// its entry, so that it is not delivered again.
    pub fn result(&mut self, output: ToolOutput, now: u64) -> (entry: Entry)
        requires
            old(self).well_formed(),
            old(self).waiting().len() > 0,
        ensures
            final(self).well_formed(),
            final(self).announced() == old(self).announced(),
            final(self).full() == old(self).full(),
            final(self).waiting() == old(self).waiting().skip(1),
            entry@ == (agent::EntryView {
                seq: old(self).entries().len() as u64,
                at: now,
                event: output@.delivers,
                item: agent::ItemView::ToolResult {
                    call_id: old(self).waiting()[0].call_id,
                    output: output@,
                },
            }),
            final(self).entries() == old(self).entries().push(entry@),
            final(self).items() == old(self).items().push(entry@.item),
            forall|id: i64| #[trigger]
                delivered_at(final(self).entries(), id) == (if output@.delivers == Some(id) {
                    Some(entry@.seq)
                } else {
                    delivered_at(old(self).entries(), id)
                }),
    {
        let ghost before = agent::entry_views(self.transcript.entries@);
        let ghost items = self.items();
        let ghost waiting = self.waiting();
        let ghost given = output@;
        assert(waiting[0] == self.calls@[self.ran as int]@);
        let count: usize = self.calls.len();
        assert(self.ran < count);
        let call_id = self.calls[self.ran].call_id.clone();
        let event = output.delivers;
        let entry = self.transcript.append(Item::ToolResult { call_id, output }, event, now);
        self.ran = self.ran + 1;
        proof {
            assert(items_of(before.push(entry@)) =~= items.push(entry@.item));
            assert(self.waiting() =~= waiting.skip(1));
            assert(ids_of(waiting).skip(1) =~= ids_of(waiting.skip(1)));
            assert(ids_of(waiting)[0] == waiting[0].call_id);
            lemma_result_answers(items, entry@.item, ids_of(waiting));
            assert forall|id: i64| #[trigger] delivered_at(self.entries(), id) == (if given.delivers
                == Some(id) {
                Some(entry@.seq)
            } else {
                delivered_at(before, id)
            }) by {
                law_results_deliver_what_they_hand_over(before, entry@, id);
            }
        }
        entry
    }

    /// Takes the summary that a compaction asked for. The context goes on from it.
    pub fn compacted(&mut self, summary: String, now: u64) -> (entry: Entry)
        requires
            old(self).well_formed(),
            old(self).waiting().len() == 0,
        ensures
            final(self).well_formed(),
            final(self).waiting().len() == 0,
            final(self).announced() == old(self).announced(),
            !final(self).full(),
            entry@ == (agent::EntryView {
                seq: old(self).entries().len() as u64,
                at: now,
                event: None,
                item: agent::ItemView::Compaction { summary: summary@ },
            }),
            final(self).entries() == old(self).entries().push(entry@),
            final(self).items() == old(self).items().push(entry@.item),
            forall|id: i64| #[trigger]
                delivered_at(final(self).entries(), id) == delivered_at(old(self).entries(), id),
    {
        let ghost before = agent::entry_views(self.transcript.entries@);
        let ghost items = self.items();
        let ghost waiting = self.waiting();
        let entry = self.transcript.append(Item::Compaction { summary }, None, now);
        self.full = false;
        proof {
            let more = seq![entry@.item];
            assert(items_of(before.push(entry@)) =~= items + more);
            assert(items + more =~= items.push(entry@.item));
            lemma_answered_grows(items, more, ids_of(waiting));
            assert forall|id: i64| #[trigger] delivered_at(self.entries(), id) == delivered_at(
                before,
                id,
            ) by {
                law_results_deliver_what_they_hand_over(before, entry@, id);
            }
        }
        entry
    }
}

/// Delivered mail is input.
proof fn lemma_delivery_adds_input(
    entries: Seq<agent::EntryView>,
    mail: Seq<store::MailView>,
    now: u64,
)
    ensures
        entries.len() <= after_delivery(entries, mail, now).len(),
        forall|i: int| #![trigger after_delivery(entries, mail, now)[i]]
            entries.len() <= i < after_delivery(entries, mail, now).len() ==> after_delivery(
                entries,
                mail,
                now,
            )[i].item is Input,
    decreases mail.len(),
{
    if mail.len() > 0 {
        let before = after_delivery(entries, mail.drop_last(), now);
        let now_entries = after_delivery(entries, mail, now);
        lemma_delivery_adds_input(entries, mail.drop_last(), now);
        assert forall|i: int| #![trigger now_entries[i]] entries.len() <= i
            < now_entries.len() implies now_entries[i].item is Input by {
            if i < before.len() {
                assert(now_entries[i] == before[i]);
            }
        }
    }
}

// ---- Calling tools ----

/// The first of `names` that is `name`.
pub open spec fn first_named(names: Seq<Seq<char>>, name: Seq<char>, from: int) -> Option<int>
    decreases names.len() - from,
{
    if from < 0 || from >= names.len() {
        None
    } else if names[from] == name {
        Some(from)
    } else {
        first_named(names, name, from + 1)
    }
}

/// Whether a text is nothing but white space.
pub open spec fn is_blank(text: Seq<char>) -> bool {
    forall|i: int| #![trigger text[i]] 0 <= i < text.len() ==> strings::is_white_space(text[i])
}

/// The arguments of a call: none are an empty object.
pub open spec fn arguments_of(
    arguments: Seq<char>,
    parsed: Result<json::JsonView, Seq<char>>,
) -> Result<json::JsonView, Seq<char>> {
    if is_blank(arguments) {
        Ok(json::JsonView::Object(Seq::empty()))
    } else {
        parsed
    }
}

/// A call that can be made: which tool, and with what.
#[derive(Debug, PartialEq, Eq)]
pub struct Ready {
    pub tool: usize,
    pub arguments: Json,
}

/// Which tool a call is for, and with what arguments, where they read as `parsed`; or what is
/// wrong with the call.
pub open spec fn ready_of(
    names: Seq<Seq<char>>,
    call: CallView,
    parsed: Result<json::JsonView, Seq<char>>,
) -> Result<(int, json::JsonView), Seq<char>> {
    match first_named(names, call.name, 0) {
        None => Err("Tool "@ + call.name + " not found"@),
        Some(tool) => match arguments_of(call.arguments, parsed) {
            Ok(arguments) => Ok((tool, arguments)),
            Err(wrong) => Err("Invalid JSON arguments for "@ + call.name + ": "@ + wrong),
        },
    }
}

proof fn lemma_first_named(names: Seq<Seq<char>>, name: Seq<char>, from: int)
    requires
        0 <= from,
    ensures
        match first_named(names, name, from) {
            Some(i) => from <= i < names.len() && names[i] == name && forall|k: int|
                #![trigger names[k]]
                from <= k < i ==> names[k] != name,
            None => forall|k: int| #![trigger names[k]]
                from <= k < names.len() ==> names[k] != name,
        },
    decreases names.len() - from,
{
    if from < names.len() && names[from] != name {
        lemma_first_named(names, name, from + 1);
    }
}

/// A call is made exactly where the agent has a tool of that name and its arguments are JSON or
/// blank: with that tool, and with those arguments, or with none where they are blank.
pub proof fn law_a_call_is_made_with_its_own_tool_and_arguments(
    names: Seq<Seq<char>>,
    call: CallView,
    parsed: Result<json::JsonView, Seq<char>>,
)
    ensures
        ready_of(names, call, parsed) is Ok <==> names.contains(call.name) && (parsed is Ok
            || is_blank(call.arguments)),
        ready_of(names, call, parsed) matches Ok((tool, arguments)) ==> {
            &&& 0 <= tool < names.len() && names[tool] == call.name
            &&& forall|k: int| #![trigger names[k]] 0 <= k < tool ==> names[k] != call.name
            &&& is_blank(call.arguments) ==> arguments == json::JsonView::Object(Seq::empty())
            &&& !is_blank(call.arguments) ==> parsed == Ok::<json::JsonView, Seq<char>>(arguments)
        },
        !names.contains(call.name) ==> ready_of(names, call, parsed) == Err::<
            (int, json::JsonView),
            Seq<char>,
        >("Tool "@ + call.name + " not found"@),
        names.contains(call.name) && !is_blank(call.arguments) && parsed is Err ==> ready_of(
            names,
            call,
            parsed,
        ) == Err::<(int, json::JsonView), Seq<char>>(
            "Invalid JSON arguments for "@ + call.name + ": "@ + parsed->Err_0,
        ),
        call.arguments.len() == 0 ==> is_blank(call.arguments),
{
    lemma_first_named(names, call.name, 0);
    if names.contains(call.name) {
        let k = choose|k: int| 0 <= k < names.len() && names[k] == call.name;
        assert(names[k] == call.name);
    }
    match first_named(names, call.name, 0) {
        Some(i) => {
            assert(names.contains(names[i]));
        },
        None => {},
    }
}

/// Whether a result says what is called, or what is wrong.
pub open spec fn is_ready(
    result: Result<Ready, String>,
    wanted: Result<(int, json::JsonView), Seq<char>>,
) -> bool {
    match wanted {
        Ok((tool, arguments)) => result matches Ok(ready) && ready.tool == tool
            && ready.arguments@ == arguments,
        Err(wrong) => result matches Err(error) && error@ == wrong,
    }
}

fn blank(text: &str) -> (blank: bool)
    ensures
        blank == is_blank(text@),
{
    let chars = chars_of(text);
    let mut i: usize = 0;
    while i < chars.len()
        invariant
            i <= chars@.len(),
            chars@ == text@,
            forall|k: int| #![trigger text@[k]]
                0 <= k < i ==> strings::is_white_space(text@[k]),
        decreases chars@.len() - i,
    {
        if !white_space(chars[i]) {
            assert(!strings::is_white_space(text@[i as int]));
            return false;
        }
        i += 1;
    }
    true
}

/// What is called, where the arguments read as `parsed`: a tool that the agent has, with
/// arguments that are JSON.
pub fn ready_with(names: &Vec<String>, call: &Call, parsed: Result<Json, String>) -> (result: Result<
    Ready,
    String,
>)
    ensures
        is_ready(
            result,
            ready_of(
                strings::texts(names@),
                call@,
                match parsed {
                    Ok(value) => Ok(value@),
                    Err(error) => Err(error@),
                },
            ),
        ),
{
    let ghost all = strings::texts(names@);
    let mut i: usize = 0;
    while i < names.len() && !same(names[i].as_str(), call.name.as_str())
        invariant
            i <= names@.len(),
            all == strings::texts(names@),
            first_named(all, call.name@, 0) == first_named(all, call.name@, i as int),
        decreases names@.len() - i,
    {
        assert(all[i as int] == names@[i as int]@);
        i += 1;
    }
    if i == names.len() {
        let mut error = "Tool ".to_owned();
        error.append(call.name.as_str());
        error.append(" not found");
        return Err(error);
    }
    assert(all[i as int] == names@[i as int]@);
    if blank(call.arguments.as_str()) {
        let arguments = sealed(no_fields());
        return Ok(Ready { tool: i, arguments });
    }
    match parsed {
        Ok(arguments) => Ok(Ready { tool: i, arguments }),
        Err(wrong) => {
            let mut error = "Invalid JSON arguments for ".to_owned();
            error.append(call.name.as_str());
            error.append(": ");
            error.append(wrong.as_str());
            Err(error)
        },
    }
}

/// What is called: a tool that the agent has, with arguments that are JSON.
pub fn ready(names: &Vec<String>, call: &Call) -> (result: Result<Ready, String>)
    ensures
        is_ready(
            result,
            ready_of(strings::texts(names@), call@, json::parsed(call.arguments@)),
        ),
{
    let parsed = parse(call.arguments.as_str());
    ready_with(names, call, parsed)
}

/// What becomes of a call of the model: it is skipped once the turn is cancelled, made where it
/// can be, and otherwise answered what is wrong with it.
pub fn answer_call(cancelled: bool, names: &Vec<String>, call: &Call) -> (next: Result<
    Ready,
    ToolOutput,
>)
    ensures
        cancelled ==> (next matches Err(output) && output@ == tools::said(
            "Tool call skipped: the turn was interrupted."@,
            true,
        )),
        !cancelled ==> match ready_of(
            strings::texts(names@),
            call@,
            json::parsed(call.arguments@),
        ) {
            Ok((tool, arguments)) => next matches Ok(ready) && ready.tool == tool
                && ready.arguments@ == arguments,
            Err(wrong) => next matches Err(output) && output@ == tools::said(wrong, true),
        },
{
    if cancelled {
        return Err(skipped());
    }
    match ready(names, call) {
        Ok(ready) => Ok(ready),
        Err(error) => Err(ToolOutput::error(error)),
    }
}

/// Where the tools of a spec are among the registered ones; tools nobody registered are left
/// out.
pub open spec fn selected(wanted: Seq<Seq<char>>, registered: Seq<Seq<char>>) -> Seq<int>
    decreases wanted.len(),
{
    if wanted.len() == 0 {
        Seq::empty()
    } else {
        let before = selected(wanted.drop_last(), registered);
        match last_named(registered, wanted.last()) {
            Some(i) => before.push(i),
            None => before,
        }
    }
}

/// The tools of a spec that are registered are those that an agent has, in the order of the spec,
/// each as it was registered last.
pub proof fn law_an_agent_has_the_tools_of_its_spec(
    wanted: Seq<Seq<char>>,
    registered: Seq<Seq<char>>,
)
    ensures
        forall|k: int| #![trigger selected(wanted, registered)[k]]
            0 <= k < selected(wanted, registered).len() ==> {
                let place = selected(wanted, registered)[k];
                &&& 0 <= place < registered.len()
                &&& wanted.contains(registered[place])
                &&& forall|later: int| #![trigger registered[later]]
                    place < later < registered.len() ==> registered[later] != registered[place]
            },
        (forall|i: int| #![trigger wanted[i]]
            0 <= i < wanted.len() ==> registered.contains(wanted[i])) ==> selected(
            wanted,
            registered,
        ).len() == wanted.len() && forall|i: int| #![trigger wanted[i]]
            0 <= i < wanted.len() ==> registered[selected(wanted, registered)[i]] == wanted[i],
    decreases wanted.len(),
{
    if wanted.len() > 0 {
        let rest = wanted.drop_last();
        let before = selected(rest, registered);
        let all = selected(wanted, registered);
        law_an_agent_has_the_tools_of_its_spec(rest, registered);
        law_later_registrations_take_the_place_of_earlier_ones(registered, wanted.last());
        assert(wanted.last() == wanted[wanted.len() - 1]);
        assert forall|k: int| #![trigger all[k]] 0 <= k < all.len() implies {
            let place = all[k];
            &&& 0 <= place < registered.len()
            &&& wanted.contains(registered[place])
            &&& forall|later: int| #![trigger registered[later]]
                place < later < registered.len() ==> registered[later] != registered[place]
        } by {
            if k < before.len() {
                assert(all[k] == before[k]);
                let i = choose|i: int| 0 <= i < rest.len() && rest[i] == registered[before[k]];
                assert(wanted[i] == rest[i]);
            }
        }
        if forall|i: int| #![trigger wanted[i]]
            0 <= i < wanted.len() ==> registered.contains(wanted[i]) {
            assert forall|i: int| #![trigger rest[i]] 0 <= i < rest.len() implies registered.contains(
                rest[i],
            ) by {
                assert(rest[i] == wanted[i]);
            }
            assert forall|i: int| #![trigger wanted[i]] 0 <= i < wanted.len() implies registered[
            all[i]] == wanted[i] by {
                if i < rest.len() {
                    assert(rest[i] == wanted[i]);
                    assert(all[i] == before[i]);
                }
            }
        }
    }
}

pub open spec fn as_ints(places: Seq<usize>) -> Seq<int> {
    places.map_values(|place: usize| place as int)
}

/// The tools that an agent may call.
pub fn select_tools(wanted: &Vec<String>, registered: &Vec<ToolInfo>) -> (places: Vec<usize>)
    ensures
        as_ints(places@) == selected(strings::texts(wanted@), tool_names(registered@)),
        forall|i: int| #![trigger places@[i]]
            0 <= i < places@.len() ==> places@[i] < registered@.len(),
{
    let ghost all = strings::texts(wanted@);
    let ghost names = tool_names(registered@);
    let mut places: Vec<usize> = Vec::new();
    let mut i: usize = 0;
    assert(all.take(0) =~= Seq::<Seq<char>>::empty());
    assert(as_ints(places@) =~= Seq::<int>::empty());
    while i < wanted.len()
        invariant
            i <= wanted@.len(),
            all == strings::texts(wanted@),
            names == tool_names(registered@),
            as_ints(places@) == selected(all.take(i as int), names),
            forall|k: int| #![trigger places@[k]]
                0 <= k < places@.len() ==> places@[k] < registered@.len(),
        decreases wanted@.len() - i,
    {
        let ghost before = as_ints(places@);
        assert(all.take(i + 1).drop_last() =~= all.take(i as int));
        assert(all.take(i + 1).last() == wanted@[i as int]@);
        match find_tool(registered, wanted[i].as_str()) {
            Some(place) => {
                places.push(place);
                assert(as_ints(places@) =~= before.push(place as int));
            },
            None => {},
        }
        i += 1;
    }
    assert(all.take(i as int) =~= all);
    places
}

/// What a model is told of a tool.
pub fn tool_spec(tool: &ToolInfo) -> (spec: ToolSpec)
    ensures
        spec@ == (provider::ToolSpecView {
            name: tool@.name,
            description: tool@.description,
            parameters: tool@.parameters,
        }),
{
    ToolSpec {
        name: tool.name.clone(),
        description: tool.description.clone(),
        parameters: tool.parameters.copied(),
    }
}

// ---- Prompts ----

/// Tools that say something of themselves in one line.
pub open spec fn listed(infos: Seq<tools::InfoView>) -> Seq<Seq<char>>
    decreases infos.len(),
{
    if infos.len() == 0 {
        Seq::empty()
    } else {
        let before = listed(infos.drop_last());
        if infos.last().snippet.len() == 0 {
            before
        } else {
            before.push("- "@ + infos.last().name + ": "@ + infos.last().snippet)
        }
    }
}

/// Rules as they are listed.
pub open spec fn rules_of(guidelines: Seq<Seq<char>>) -> Seq<Seq<char>> {
    guidelines.map_values(|rule: Seq<char>| "- "@ + rule)
}

/// The usage rules of tools.
pub open spec fn all_rules(infos: Seq<tools::InfoView>) -> Seq<Seq<char>>
    decreases infos.len(),
{
    if infos.len() == 0 {
        Seq::empty()
    } else {
        all_rules(infos.drop_last()) + rules_of(infos.last().guidelines)
    }
}

/// A list under a heading; nothing where it is empty.
pub open spec fn section(heading: Seq<char>, lines: Seq<Seq<char>>) -> Seq<char> {
    if lines.len() == 0 {
        Seq::empty()
    } else {
        "\n\n"@ + heading + ":\n"@ + strings::join(lines, seq!['\n'])
    }
}

/// The agent's own prompt and id, then the tool list and usage rules.
pub open spec fn prompt_of(base: Seq<char>, agent: Seq<char>, infos: Seq<tools::InfoView>) -> Seq<
    char,
> {
    strings::trim_end(base) + "\n\nYour agent id is "@ + agent + "."@ + section(
        "Available tools"@,
        listed(infos),
    ) + section("Guidelines"@, all_rules(infos))
}

/// Where a line stands among joined lines, with the line feed before it.
proof fn lemma_line_among(lines: Seq<Seq<char>>, k: int) -> (at: int)
    requires
        0 <= k < lines.len(),
    ensures
        strings::stands_at(
            seq!['\n'] + strings::join(lines, seq!['\n']),
            seq!['\n'] + lines[k],
            at,
        ),
    decreases lines.len(),
{
    let feed = seq!['\n'];
    let all = feed + strings::join(lines, feed);
    let rest = lines.drop_last();
    let before = strings::join(rest, feed);
    let line = feed + lines[k];
    if lines.len() == 1 {
        assert(all =~= line);
        assert(all.subrange(0, line.len() as int) =~= line);
        0
    } else if k == lines.len() - 1 {
        let at = before.len() as int + 1;
        assert(all =~= feed + before + feed + lines.last());
        assert(all.subrange(at, at + line.len()) =~= line);
        at
    } else {
        let at = lemma_line_among(rest, k);
        assert(rest[k] == lines[k]);
        assert(all.subrange(at, at + line.len()) =~= (feed + before).subrange(
            at,
            at + line.len(),
        ));
        at
    }
}

/// A list under a heading shows each of its lines.
proof fn lemma_section_shows(heading: Seq<char>, lines: Seq<Seq<char>>, k: int) -> (at: int)
    requires
        0 <= k < lines.len(),
    ensures
        strings::stands_at(section(heading, lines), seq!['\n'] + lines[k], at),
{
    let at = lemma_line_among(lines, k);
    let line = seq!['\n'] + lines[k];
    reveal_strlit(":\n");
    let list = seq!['\n'] + strings::join(lines, seq!['\n']);
    let all = section(heading, lines);
    assert(all =~= "\n\n"@ + heading + seq![':'] + list);
    let from = all.len() - list.len() + at;
    assert(all.subrange(from, from + line.len()) =~= list.subrange(at, at + line.len()));
    from
}

proof fn lemma_listed(infos: Seq<tools::InfoView>, i: int) -> (k: int)
    requires
        0 <= i < infos.len(),
        infos[i].snippet.len() > 0,
    ensures
        0 <= k < listed(infos).len(),
        listed(infos)[k] == "- "@ + infos[i].name + ": "@ + infos[i].snippet,
    decreases infos.len(),
{
    if i == infos.len() - 1 {
        listed(infos).len() - 1
    } else {
        assert(infos.drop_last()[i] == infos[i]);
        lemma_listed(infos.drop_last(), i)
    }
}

proof fn lemma_ruled(infos: Seq<tools::InfoView>, i: int, j: int) -> (k: int)
    requires
        0 <= i < infos.len(),
        0 <= j < infos[i].guidelines.len(),
    ensures
        0 <= k < all_rules(infos).len(),
        all_rules(infos)[k] == "- "@ + infos[i].guidelines[j],
    decreases infos.len(),
{
    let before = all_rules(infos.drop_last());
    if i == infos.len() - 1 {
        before.len() + j
    } else {
        assert(infos.drop_last()[i] == infos[i]);
        lemma_ruled(infos.drop_last(), i, j)
    }
}

/// A prompt begins with the agent's own prompt and tells the agent's id. It has a line for each
/// tool that says something of itself.
pub proof fn law_a_prompt_tells_the_id_and_the_tools(
    base: Seq<char>,
    agent: Seq<char>,
    infos: Seq<tools::InfoView>,
)
    ensures
        exists|lists: Seq<char>|
            prompt_of(base, agent, infos) == #[trigger] (strings::trim_end(base)
                + "\n\nYour agent id is "@ + agent + "."@ + lists),
        forall|i: int| #![trigger infos[i]]
            0 <= i < infos.len() && infos[i].snippet.len() > 0 ==> exists|at: int| #[trigger]
                strings::stands_at(
                    prompt_of(base, agent, infos),
                    seq!['\n'] + ("- "@ + infos[i].name + ": "@ + infos[i].snippet),
                    at,
                ),
        infos.len() == 0 ==> prompt_of(base, agent, infos) == strings::trim_end(base)
            + "\n\nYour agent id is "@ + agent + "."@,
{
    let prompt = prompt_of(base, agent, infos);
    let head = strings::trim_end(base) + "\n\nYour agent id is "@ + agent + "."@;
    let tools = section("Available tools"@, listed(infos));
    let rules = section("Guidelines"@, all_rules(infos));
    assert(prompt =~= head + (tools + rules));
    if infos.len() == 0 {
        assert(prompt =~= head);
    }
    assert forall|i: int| #![trigger infos[i]]
        0 <= i < infos.len() && infos[i].snippet.len() > 0 implies exists|at: int| #[trigger]
        strings::stands_at(
            prompt,
            seq!['\n'] + ("- "@ + infos[i].name + ": "@ + infos[i].snippet),
            at,
        ) by {
        let line = seq!['\n'] + ("- "@ + infos[i].name + ": "@ + infos[i].snippet);
        let k = lemma_listed(infos, i);
        let at = lemma_section_shows("Available tools"@, listed(infos), k);
        let from = head.len() + at;
        assert(prompt.subrange(from, from + line.len()) =~= tools.subrange(at, at + line.len()));
        assert(strings::stands_at(prompt, line, from));
    }
}

/// Tools are listed in order, each on its own line, and so are their rules.
pub proof fn law_tools_are_listed_in_order(
    before: Seq<tools::InfoView>,
    info: tools::InfoView,
    after: Seq<tools::InfoView>,
)
    ensures
        listed(before + seq![info] + after) == listed(before) + (if info.snippet.len() == 0 {
            Seq::empty()
        } else {
            seq!["- "@ + info.name + ": "@ + info.snippet]
        }) + listed(after),
        all_rules(before + seq![info] + after) == all_rules(before) + Seq::new(
            info.guidelines.len(),
            |i: int| "- "@ + info.guidelines[i],
        ) + all_rules(after),
        listed(Seq::empty()) == Seq::<Seq<char>>::empty(),
        all_rules(Seq::empty()) == Seq::<Seq<char>>::empty(),
    decreases after.len(),
{
    let all = before + seq![info] + after;
    let line = if info.snippet.len() == 0 {
        Seq::empty()
    } else {
        seq!["- "@ + info.name + ": "@ + info.snippet]
    };
    let rules = Seq::new(info.guidelines.len(), |i: int| "- "@ + info.guidelines[i]);
    assert(rules =~= rules_of(info.guidelines));
    if after.len() == 0 {
        assert(all.drop_last() =~= before);
        assert(all.last() == info);
        assert(listed(all) =~= listed(before) + line + listed(after));
        assert(all_rules(all) =~= all_rules(before) + rules + all_rules(after));
    } else {
        let rest = after.drop_last();
        assert(all.drop_last() =~= before + seq![info] + rest);
        assert(all.last() == after.last());
        law_tools_are_listed_in_order(before, info, rest);
        assert(listed(all) =~= listed(before) + line + listed(after));
        assert(all_rules(all) =~= all_rules(before) + rules + all_rules(after));
    }
}

/// A tool that says nothing of itself and has no rules adds nothing to a prompt.
pub proof fn law_silent_tools_are_not_listed(
    base: Seq<char>,
    agent: Seq<char>,
    infos: Seq<tools::InfoView>,
    silent: tools::InfoView,
)
    requires
        silent.snippet.len() == 0,
        silent.guidelines.len() == 0,
    ensures
        prompt_of(base, agent, infos.push(silent)) == prompt_of(base, agent, infos),
{
    let all = infos.push(silent);
    assert(all.drop_last() =~= infos);
    assert(all_rules(infos) + rules_of(silent.guidelines) =~= all_rules(infos));
}

/// A prompt has a line for each rule of each tool.
pub proof fn law_a_prompt_tells_every_rule(
    base: Seq<char>,
    agent: Seq<char>,
    infos: Seq<tools::InfoView>,
    i: int,
    j: int,
)
    requires
        0 <= i < infos.len(),
        0 <= j < infos[i].guidelines.len(),
    ensures
        exists|at: int| #[trigger]
            strings::stands_at(
                prompt_of(base, agent, infos),
                seq!['\n'] + ("- "@ + infos[i].guidelines[j]),
                at,
            ),
{
    let prompt = prompt_of(base, agent, infos);
    let rules = section("Guidelines"@, all_rules(infos));
    let line = seq!['\n'] + ("- "@ + infos[i].guidelines[j]);
    let k = lemma_ruled(infos, i, j);
    let at = lemma_section_shows("Guidelines"@, all_rules(infos), k);
    let from = prompt.len() - rules.len() + at;
    assert(prompt.subrange(from, from + line.len()) =~= rules.subrange(at, at + line.len()));
    assert(strings::stands_at(prompt, line, from));
}

/// The lines of a list, one below the other.
fn joined_lines(lines: &Vec<String>) -> (text: String)
    ensures
        text@ == strings::join(strings::texts(lines@), seq!['\n']),
{
    let ghost all = strings::texts(lines@);
    let mut text = String::new();
    let mut i: usize = 0;
    assert(strings::join(all.take(0), seq!['\n']) =~= Seq::<char>::empty());
    while i < lines.len()
        invariant
            i <= lines@.len(),
            all == strings::texts(lines@),
            text@ == strings::join(all.take(i as int), seq!['\n']),
        decreases lines@.len() - i,
    {
        let ghost now = all.take(i + 1);
        assert(now.drop_last() =~= all.take(i as int));
        assert(now.last() == lines@[i as int]@);
        if i > 0 {
            text.push('\n');
        }
        text.append(lines[i].as_str());
        assert(text@ =~= strings::join(now, seq!['\n']));
        i += 1;
    }
    assert(all.take(i as int) =~= all);
    text
}

fn append_section(prompt: &mut String, heading: &str, lines: &Vec<String>)
    ensures
        final(prompt)@ == old(prompt)@ + section(heading@, strings::texts(lines@)),
{
    let ghost before = prompt@;
    assert(strings::texts(lines@).len() == lines@.len());
    if lines.len() == 0 {
        assert(before + Seq::<char>::empty() =~= before);
        return ;
    }
    prompt.append("\n\n");
    prompt.append(heading);
    prompt.append(":\n");
    prompt.append(joined_lines(lines).as_str());
    assert(prompt@ =~= before + section(heading@, strings::texts(lines@)));
}

/// The agent's own prompt and id, then the tool list and usage rules.
pub fn system_prompt(base: &str, agent: &str, infos: &Vec<ToolInfo>) -> (prompt: String)
    ensures
        prompt@ == prompt_of(base@, agent@, tools::info_views(infos@)),
{
    let ghost all = tools::info_views(infos@);
    let chars = chars_of(base);
    let end: usize = trimmed_end(&chars, 0, chars.len());
    let mut prompt = text_between(&chars, 0, end);
    assert(chars@.subrange(0, chars@.len() as int) =~= base@);
    prompt.append("\n\nYour agent id is ");
    prompt.append(agent);
    prompt.append(".");
    let mut lines: Vec<String> = Vec::new();
    let mut rules: Vec<String> = Vec::new();
    let mut i: usize = 0;
    assert(all.take(0) =~= Seq::<tools::InfoView>::empty());
    assert(strings::texts(lines@) =~= Seq::<Seq<char>>::empty());
    assert(strings::texts(rules@) =~= Seq::<Seq<char>>::empty());
    while i < infos.len()
        invariant
            i <= infos@.len(),
            all == tools::info_views(infos@),
            strings::texts(lines@) == listed(all.take(i as int)),
            strings::texts(rules@) == all_rules(all.take(i as int)),
        decreases infos@.len() - i,
    {
        let ghost now = all.take(i + 1);
        let ghost so_far = strings::texts(lines@);
        let ghost old_rules = strings::texts(rules@);
        let ghost more = rules_of(all[i as int].guidelines);
        let info = &infos[i];
        proof {
            assert(now.drop_last() =~= all.take(i as int));
            assert(now.last() == info@);
        }
        if !info.snippet.as_str().is_empty() {
            let mut line = "- ".to_owned();
            line.append(info.name.as_str());
            line.append(": ");
            line.append(info.snippet.as_str());
            lines.push(line);
            assert(strings::texts(lines@) =~= so_far.push(line@));
        }
        let mut j: usize = 0;
        assert(strings::texts(rules@) =~= old_rules + more.take(0));
        while j < info.guidelines.len()
            invariant
                j <= info.guidelines@.len(),
                more == rules_of(strings::texts(info.guidelines@)),
                strings::texts(rules@) == old_rules + more.take(j as int),
            decreases info.guidelines@.len() - j,
        {
            let ghost held = strings::texts(rules@);
            let mut rule = "- ".to_owned();
            rule.append(info.guidelines[j].as_str());
            assert(rule@ == more[j as int]);
            rules.push(rule);
            j += 1;
            assert(strings::texts(rules@) =~= held.push(rule@));
            assert(strings::texts(rules@) =~= old_rules + more.take(j as int));
        }
        assert(more.take(j as int) =~= more);
        i += 1;
    }
    assert(all.take(i as int) =~= all);
    append_section(&mut prompt, "Available tools", &lines);
    append_section(&mut prompt, "Guidelines", &rules);
    prompt
}

// ---- Context ----

/// Where the context begins: at the last compaction, else at the beginning.
pub open spec fn context_start(items: Seq<agent::ItemView>) -> nat
    decreases items.len(),
{
    if items.len() == 0 {
        0
    } else if items.last() is Compaction {
        (items.len() - 1) as nat
    } else {
        context_start(items.drop_last())
    }
}

/// What a model is shown: everything from the last compaction on.
pub open spec fn context_of(items: Seq<agent::ItemView>) -> Seq<agent::ItemView> {
    items.skip(context_start(items) as int)
}

proof fn lemma_context_start(items: Seq<agent::ItemView>)
    ensures
        context_start(items) <= items.len(),
    decreases items.len(),
{
    if items.len() > 0 {
        lemma_context_start(items.drop_last());
    }
}

/// What a model is shown of a transcript.
pub fn context(transcript: &Transcript) -> (items: Vec<Item>)
    ensures
        agent::item_views(items@) == context_of(
            items_of(agent::entry_views(transcript.entries@)),
        ),
{
    let ghost all = items_of(agent::entry_views(transcript.entries@));
    let count: usize = transcript.entries.len();
    let mut start: usize = count;
    let mut found = false;
    assert(all.take(count as int) =~= all);
    while start > 0 && !found
        invariant
            start <= count == transcript.entries@.len(),
            all == items_of(agent::entry_views(transcript.entries@)),
            found ==> context_start(all) == start && start < count,
            !found ==> context_start(all) == context_start(all.take(start as int)),
        decreases start,
    {
        assert(all.take(start as int).last() == transcript.entries@[start - 1].item@);
        assert(all.take(start as int).drop_last() =~= all.take(start - 1));
        match &transcript.entries[start - 1].item {
            Item::Compaction { .. } => {
                found = true;
            },
            _ => {},
        }
        start -= 1;
    }
    let ghost wanted = all.skip(start as int);
    let mut items: Vec<Item> = Vec::new();
    let mut at: usize = start;
    assert(agent::item_views(items@) =~= wanted.take(0));
    while at < count
        invariant
            start <= at <= count == transcript.entries@.len(),
            all == items_of(agent::entry_views(transcript.entries@)),
            wanted == all.skip(start as int),
            agent::item_views(items@) == wanted.take(at - start),
        decreases count - at,
    {
        let item = transcript.entries[at].item.copied();
        let ghost before = agent::item_views(items@);
        assert(item@ == wanted[at - start]);
        items.push(item);
        assert(agent::item_views(items@) =~= before.push(item@));
        at += 1;
        assert(agent::item_views(items@) =~= wanted.take(at - start));
    }
    assert(wanted.take(at - start) =~= wanted);
    items
}

/// After a compaction the model is shown its summary, and what came later.
pub proof fn law_context_goes_on_from_the_summary(
    before: Seq<agent::ItemView>,
    summary: Seq<char>,
    later: Seq<agent::ItemView>,
)
    requires
        forall|i: int| #![trigger later[i]] 0 <= i < later.len() ==> !(later[i] is Compaction),
    ensures
        context_of(before.push(agent::ItemView::Compaction { summary }) + later) == seq![
            agent::ItemView::Compaction { summary },
        ] + later,
    decreases later.len(),
{
    let mark = agent::ItemView::Compaction { summary };
    let head = before.push(mark);
    let all = head + later;
    lemma_context_after(head, later);
    assert(head.last() == mark);
    assert(context_start(all) == before.len());
    assert(all.skip(before.len() as int) =~= seq![mark] + later);
}

/// Without a compaction the model is shown everything.
pub proof fn law_context_is_everything_without_a_summary(items: Seq<agent::ItemView>)
    requires
        forall|i: int| #![trigger items[i]] 0 <= i < items.len() ==> !(items[i] is Compaction),
    ensures
        context_of(items) == items,
    decreases items.len(),
{
    if items.len() > 0 {
        let rest = items.drop_last();
        assert(items.last() == items[items.len() - 1]);
        assert forall|i: int| #![trigger rest[i]] 0 <= i < rest.len() implies !(
        rest[i] is Compaction) by {
            assert(rest[i] == items[i]);
        }
        law_context_is_everything_without_a_summary(rest);
        lemma_context_start(rest);
        assert(context_start(rest) == 0) by {
            assert(context_of(rest).len() == rest.len() - context_start(rest));
        }
    }
    assert(items.skip(0) =~= items);
}

proof fn lemma_context_after(head: Seq<agent::ItemView>, later: Seq<agent::ItemView>)
    requires
        head.len() > 0,
        head.last() is Compaction,
        forall|i: int| #![trigger later[i]] 0 <= i < later.len() ==> !(later[i] is Compaction),
    ensures
        context_start(head + later) == head.len() - 1,
    decreases later.len(),
{
    let all = head + later;
    if later.len() == 0 {
        assert(all =~= head);
    } else {
        let less = later.drop_last();
        assert forall|i: int| #![trigger less[i]] 0 <= i < less.len() implies !(
        less[i] is Compaction) by {
            assert(less[i] == later[i]);
        }
        lemma_context_after(head, less);
        assert(all.drop_last() =~= head + less);
        assert(all.last() == later[later.len() - 1]);
    }
}

/// Whether the context is to be compacted before the next call: what the last call took and gave
/// fills the model's window.
pub fn is_full(window: Option<u64>, usage: Usage) -> (full: bool)
    ensures
        full == (window matches Some(tokens) && usage.input + usage.output >= tokens),
{
    match window {
        Some(tokens) => usage.input as u128 + usage.output as u128 >= tokens as u128,
        None => false,
    }
}

/// What the model is asked for a compaction.
pub open spec fn compaction_request() -> Seq<char> {
    "Write a summary of the conversation so far. It takes the place of the conversation, so keep everything that is needed to continue: what was asked, what was done and found out, and what is left to do."@
}

/// What a model is shown to compact its context: the context, and the request for a summary.
pub fn compaction_items(transcript: &Transcript) -> (items: Vec<Item>)
    ensures
        agent::item_views(items@) == context_of(
            items_of(agent::entry_views(transcript.entries@)),
        ).push(agent::ItemView::Input { from: "user"@, text: compaction_request() }),
{
    let mut items = context(transcript);
    let ghost before = agent::item_views(items@);
    let request = Item::Input {
        from: "user".to_owned(),
        text: "Write a summary of the conversation so far. It takes the place of the conversation, so keep everything that is needed to continue: what was asked, what was done and found out, and what is left to do.".to_owned(),
    };
    items.push(request);
    assert(agent::item_views(items@) =~= before.push(request@));
    items
}

/// What the model said in an answer.
pub open spec fn said_in(items: Seq<agent::ItemView>) -> Seq<char>
    decreases items.len(),
{
    if items.len() == 0 {
        Seq::empty()
    } else {
        let before = said_in(items.drop_last());
        match items.last() {
            agent::ItemView::Assistant { text } => before + text,
            _ => before,
        }
    }
}

/// What the model said is what its messages say, one after the other.
pub proof fn law_what_was_said_is_the_messages(
    before: Seq<agent::ItemView>,
    item: agent::ItemView,
    after: Seq<agent::ItemView>,
)
    ensures
        said_in(before + seq![item] + after) == said_in(before) + (match item {
            agent::ItemView::Assistant { text } => text,
            _ => Seq::empty(),
        }) + said_in(after),
        said_in(Seq::empty()) == Seq::<char>::empty(),
    decreases after.len(),
{
    let all = before + seq![item] + after;
    let own = match item {
        agent::ItemView::Assistant { text } => text,
        _ => Seq::empty(),
    };
    if after.len() == 0 {
        assert(all.drop_last() =~= before);
        assert(all.last() == item);
        assert(said_in(all) =~= said_in(before) + own + said_in(after));
    } else {
        let rest = after.drop_last();
        assert(all.drop_last() =~= before + seq![item] + rest);
        assert(all.last() == after.last());
        law_what_was_said_is_the_messages(before, item, rest);
        assert(said_in(all) =~= said_in(before) + own + said_in(after));
    }
}

/// The summary in the answer to a compaction.
pub fn summary_in(items: &Vec<Item>) -> (summary: String)
    ensures
        summary@ == said_in(agent::item_views(items@)),
{
    let ghost all = agent::item_views(items@);
    let mut summary = String::new();
    let mut i: usize = 0;
    assert(all.take(0) =~= Seq::<agent::ItemView>::empty());
    while i < items.len()
        invariant
            i <= items@.len(),
            all == agent::item_views(items@),
            summary@ == said_in(all.take(i as int)),
        decreases items@.len() - i,
    {
        assert(all.take(i + 1).drop_last() =~= all.take(i as int));
        assert(all.take(i + 1).last() == items@[i as int]@);
        match &items[i] {
            Item::Assistant { text } => {
                summary.append(text.as_str());
            },
            _ => {},
        }
        i += 1;
    }
    assert(all.take(i as int) =~= all);
    summary
}

// ---- Settings ----

/// How a harness is set up.
#[derive(Clone, Debug, PartialEq, Eq)]
pub struct HarnessBuilder {
    pub dir: String,
    pub transcripts: Option<String>,
    pub sandbox_dir: Option<String>,
    /// Turns that may run at once; further woken agents wait for a slot.
    pub max_turns: usize,
    /// How long a sandbox with no running commands stays live before hibernating.
    pub idle_grace_millis: u64,
}

impl HarnessBuilder {
    pub fn new(dir: &str) -> (builder: Self)
        ensures
            builder.dir@ == dir@,
            builder.transcripts is None,
            builder.sandbox_dir is None,
            builder.max_turns == 1024,
            builder.idle_grace_millis == 10000,
    {
        HarnessBuilder {
            dir: dir.to_owned(),
            transcripts: None,
            sandbox_dir: None,
            max_turns: 1024,
            idle_grace_millis: 10000,
        }
    }

    /// Has transcripts live in another directory. Bind it into sandboxes to let agents read each
    /// other.
    pub fn transcripts(self, dir: String) -> (builder: Self)
        ensures
            builder == (HarnessBuilder { transcripts: Some(dir), ..self }),
    {
        HarnessBuilder { transcripts: Some(dir), ..self }
    }

    /// Has sandboxes live in another directory.
    pub fn sandbox_dir(self, dir: String) -> (builder: Self)
        ensures
            builder == (HarnessBuilder { sandbox_dir: Some(dir), ..self }),
    {
        HarnessBuilder { sandbox_dir: Some(dir), ..self }
    }

    /// Has so many turns run at once.
    pub fn max_concurrent_turns(self, turns: usize) -> (builder: Self)
        ensures
            builder == (HarnessBuilder { max_turns: turns, ..self }),
    {
        HarnessBuilder { max_turns: turns, ..self }
    }

    /// Has an agent's sandbox stay live so long after its last command.
    pub fn idle_grace(self, millis: u64) -> (builder: Self)
        ensures
            builder == (HarnessBuilder { idle_grace_millis: millis, ..self }),
    {
        HarnessBuilder { idle_grace_millis: millis, ..self }
    }

    /// Where transcripts live, one `<agent>/transcript.jsonl` each. Defaults to
    /// `<dir>/transcripts`.
    pub fn transcripts_dir(&self) -> (dir: String)
        ensures
            dir@ == (match self.transcripts {
                Some(dir) => dir@,
                None => paths::joined(self.dir@, "transcripts"@),
            }),
    {
        match &self.transcripts {
            Some(dir) => dir.clone(),
            None => join(self.dir.as_str(), "transcripts"),
        }
    }

    /// Where the database is.
    pub fn database(&self) -> (path: String)
        ensures
            path@ == paths::joined(self.dir@, "harness.db"@),
    {
        join(self.dir.as_str(), "harness.db")
    }

    /// Where sandboxes live. Defaults to `<dir>/sandboxes`.
    pub fn sandboxes_dir(&self) -> (dir: String)
        ensures
            dir@ == (match self.sandbox_dir {
                Some(dir) => dir@,
                None => paths::joined(self.dir@, "sandboxes"@),
            }),
    {
        match &self.sandbox_dir {
            Some(dir) => dir.clone(),
            None => join(self.dir.as_str(), "sandboxes"),
        }
    }
}

} // verus!
