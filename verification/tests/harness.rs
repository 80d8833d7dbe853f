use erisharness::agent::{AgentRecord, AgentSpec, AgentState, Entry, Item, Usage};
use erisharness::harness::{
    address, after_turn, answer_call, calls_of, cancelled, check_spec, close_dangling_calls, compaction_items, context, deliver,
    find_tool, interrupted, is_full, is_settled, on_mail, ready, ready_with, select_tools, skipped, starts_task,
    summary_in, system_prompt, tool_spec, Address, After, Call, Effect, Ended, HarnessBuilder, Step, Turn,
};
use erisharness::json::Json;
use erisharness::machine::{DirectSpec, MachineSpec, SandboxSpec};
use erisharness::provider::responses::body;
use erisharness::provider::Request;
use erisharness::sandbox::Limits;
use erisharness::store::{
    find_reply, is_unfinished, millis, new_agent_id, new_log_path, now_ms, recover, split_log, transcript_path,
    whole_millis, Mail, Transcript,
};
use erisharness::tools::message::{self, Event};
use erisharness::tools::{builtin, Content, Reply, ToolInfo, ToolOutput};

fn text(value: &str) -> Json {
    Json::Text(value.into())
}

fn spec() -> AgentSpec {
    AgentSpec {
        system_prompt: "Lifecycle agent.".into(),
        tools: vec!["bash".into()],
        provider: "test".into(),
        model: "model-one".into(),
        reasoning_effort: Some("high".into()),
        context_window: None,
        metadata: Json::Null,
        machine: MachineSpec::Direct(DirectSpec { cwd: "/w".into(), env: None }),
    }
}

fn names(all: &[&str]) -> Vec<String> {
    all.iter().map(|name| (*name).to_owned()).collect()
}

fn input(from: &str, said: &str) -> Item {
    Item::Input { from: from.into(), text: said.into() }
}

fn says(said: &str) -> Item {
    Item::Assistant { text: said.into() }
}

fn calls(call_id: &str, name: &str, arguments: &str) -> Item {
    Item::ToolCall { call_id: call_id.into(), name: name.into(), arguments: arguments.into() }
}

fn mail(id: i64, from: &str, said: &str) -> Mail {
    Mail { id, from: from.into(), text: said.into() }
}

fn begin(items: Vec<Item>) -> Turn {
    let mut transcript = Transcript::new(vec![]);
    for item in items {
        transcript.append(item, None, 0);
    }
    Turn::begin(transcript, false, 0).0
}

fn items(turn: &Turn) -> Vec<Item> {
    turn.transcript().entries.iter().map(|entry| entry.item.copied()).collect()
}

fn answered(output: ToolOutput) -> String {
    output.content.into_iter().map(|part| if let Content::Text(said) = part { said } else { String::new() }).collect()
}

fn waiting_plan(to: &str, caller: &str) -> message::Plan {
    let args = Json::Object(vec![
        ("agent".into(), text(to)),
        ("text".into(), text("question")),
        ("wait".into(), Json::Bool(true)),
    ]);
    message::plan(&args, caller).unwrap()
}

fn answer(plan: &message::Plan, event: Event) -> ToolOutput {
    match message::advance(plan, event) {
        message::Step::Answer(output) => output,
        message::Step::AwaitReply { .. } => panic!("the call still waits"),
    }
}

#[test]
fn sandboxed_agents_need_sandboxes_enabled() {
    let sandboxed = AgentSpec {
        machine: MachineSpec::Sandbox(SandboxSpec {
            rootfs: "/nonexistent".into(),
            layers: Vec::new(),
            binds: Vec::new(),
            limits: Limits::default(),
            hostname: String::new(),
            cwd: "/root".into(),
            env: SandboxSpec::default_env(),
        }),
        ..spec()
    };
    let error = check_spec(&sandboxed, &names(&["test"]), &names(&["bash"]), false).unwrap_err();
    assert!(error.contains("sandboxes are not enabled"), "{error}");
    assert_eq!(check_spec(&sandboxed, &names(&["test"]), &names(&["bash"]), true), Ok(()));
}

#[test]
fn specs_name_what_is_registered() {
    assert_eq!(check_spec(&spec(), &names(&["test"]), &names(&["read", "bash"]), false), Ok(()));
    let error = check_spec(&AgentSpec { provider: "missing".into(), ..spec() }, &names(&["test"]), &names(&["bash"]), false);
    assert_eq!(error, Err("unknown provider missing".to_owned()));
    let error = check_spec(&AgentSpec { tools: names(&["bash", "fly"]), ..spec() }, &names(&["test"]), &names(&["bash"]), false);
    assert_eq!(error, Err("unknown tool fly".to_owned()));
}

#[test]
fn the_record_tracks_the_latest_context_size() {
    let mut record = AgentRecord {
        id: "a".into(),
        spec: spec(),
        state: AgentState::Idle,
        error: None,
        held: false,
        usage: Usage::default(),
        context_tokens: 0,
    };
    for _ in 0..2 {
        record.used(Usage { input: 10, cached_input: 4, output: 5, reasoning: 1 });
    }
    assert_eq!(record.context_tokens, 10);
    assert_eq!(record.usage.input, 20);
}

#[test]
fn mail_waits_for_the_user_after_an_interrupt() {
    assert_eq!(on_mail("user", false), Effect { release: false, wake: true });
    assert_eq!(on_mail("user", true), Effect { release: true, wake: true });
    assert_eq!(on_mail("agent-x", false), Effect { release: false, wake: true });
    assert_eq!(on_mail("agent-x", true), Effect { release: false, wake: false });
    assert!(starts_task(false, false) && !starts_task(true, false) && !starts_task(false, true));
}

#[test]
fn mail_goes_to_whom_the_host_serves_or_to_an_agent() {
    let served = names(&["user"]);
    assert_eq!(address("user", &served, false), Ok(Address::Host));
    assert_eq!(address("b", &served, true), Ok(Address::Inbox));
    assert_eq!(address("nobody", &served, false), Err("No agent nobody".to_owned()));
}

#[test]
fn turns_that_end_leave_no_mail_behind() {
    assert_eq!(after_turn(Ended::Idle, false, true), After::Again);
    let idle = After::Settle { state: AgentState::Idle, error: None };
    assert_eq!(after_turn(Ended::Idle, false, false), idle);
    assert_eq!(after_turn(Ended::Interrupted, false, true), idle);
    assert_eq!(after_turn(Ended::Closing, false, true), After::Leave);
    assert_eq!(after_turn(Ended::Idle, true, true), After::Leave);
    assert_eq!(
        after_turn(Ended::Failed("400 scripted".into()), false, false),
        After::Settle { state: AgentState::Failed, error: Some("400 scripted".into()) }
    );
    assert_eq!(cancelled(false, true), None);
    assert_eq!(cancelled(true, true), Some(Ended::Closing));
    assert_eq!(cancelled(true, false), Some(Ended::Interrupted));
}

#[test]
fn an_agent_settles_once_its_task_ended() {
    assert!(is_settled(Some(AgentState::Running), AgentState::Running, true));
    assert!(!is_settled(Some(AgentState::Idle), AgentState::Idle, true));
    assert!(is_settled(Some(AgentState::Idle), AgentState::Idle, false));
    assert!(!is_settled(None, AgentState::Idle, false));
}

#[test]
fn a_turn_runs_tools_until_the_model_answers() {
    let mut turn = begin(vec![]);
    assert_eq!(turn.next(), Step::End(Ended::Idle));
    turn.deliver(&vec![mail(1, "user", "Run echo hi")], 5);
    assert_eq!(turn.next(), Step::Call { announce: true });
    turn.announce();
    turn.answer(vec![calls("c1", "bash", "{}")], false, 6);
    let call = turn.call().unwrap();
    assert_eq!((call.call_id.as_str(), call.name.as_str()), ("c1", "bash"));
    let entry = turn.result(ToolOutput::text("hi\n".into()), 7);
    assert_eq!((entry.seq, entry.event), (2, None));
    assert!(turn.call().is_none());
    assert_eq!(turn.next(), Step::Call { announce: false });
    turn.answer(vec![says("It printed hi.")], false, 8);
    assert_eq!(turn.next(), Step::End(Ended::Idle));
    let kept = items(&turn);
    assert_eq!(kept.len(), 4);
    assert_eq!(kept[0], input("user", "Run echo hi"));
    assert_eq!(kept[3], says("It printed hi."));
}

#[test]
fn answers_and_summaries_deliver_no_mail() {
    let mut turn = begin(vec![input("user", "go")]);
    let written = turn.answer(vec![says("one"), calls("c1", "bash", "{}")], true, 6);
    let seen: Vec<(u64, u64, Option<i64>)> = written.iter().map(|e| (e.seq, e.at, e.event)).collect();
    assert_eq!(seen, [(1, 6, None), (2, 6, None)]);
    let entry = turn.result(ToolOutput::text("done".into()), 7);
    assert_eq!((entry.seq, entry.at, entry.event), (3, 7, None));
    let entry = turn.compacted("so far".into(), 8);
    assert_eq!((entry.seq, entry.at, entry.event), (4, 8, None));
    let delivery = turn.deliver(&vec![mail(1, "user", "more")], 9);
    assert_eq!(delivery.marks, [(1, 5)]);
    assert_eq!(delivery.written.len(), 1);
    assert_eq!(turn.next(), Step::Call { announce: true });
}

#[test]
fn every_call_gets_a_result_though_the_turn_is_interrupted() {
    let mut turn = begin(vec![input("user", "two")]);
    turn.answer(vec![calls("c1", "bash", ""), calls("c2", "bash", "")], false, 0);
    turn.result(ToolOutput::error("Command aborted".into()), 0);
    assert_eq!(turn.call().unwrap().call_id, "c2");
    turn.result(skipped(), 0);
    let kept = items(&turn);
    assert_eq!(
        kept[4],
        Item::ToolResult {
            call_id: "c2".into(),
            output: ToolOutput::error("Tool call skipped: the turn was interrupted.".into())
        }
    );
    assert!(turn.call().is_none());
}

#[test]
fn calls_that_a_stop_cut_off_are_closed() {
    let mut transcript = Transcript::new(vec![]);
    for item in [
        calls("a", "bash", ""),
        calls("b", "bash", ""),
        Item::ToolResult { call_id: "a".into(), output: ToolOutput::text("done".into()) },
    ] {
        transcript.append(item, None, 0);
    }
    let written = close_dangling_calls(&mut transcript, 9);
    assert_eq!(written.len(), 1);
    assert_eq!((written[0].seq, written[0].at, written[0].event), (3, 9, None));
    assert_eq!(written[0].item, Item::ToolResult { call_id: "b".into(), output: interrupted() });
    assert!(close_dangling_calls(&mut transcript, 9).is_empty());
    assert_eq!(answered(interrupted()), "Tool call was interrupted before it finished.");
}

#[test]
fn mail_is_delivered_once() {
    let pending = vec![mail(3, "user", "one"), mail(5, "b", "two")];
    let mut transcript = Transcript::new(vec![]);
    let first = deliver(&mut transcript, &pending, 7);
    assert_eq!(first.marks, [(3, 0), (5, 1)]);
    assert_eq!(first.written.len(), 2);
    assert_eq!(
        transcript.entries[1],
        Entry { seq: 1, at: 7, event: Some(5), item: input("b", "two") }
    );
    let again = deliver(&mut transcript, &pending, 8);
    assert_eq!(again.marks, [(3, 0), (5, 1)]);
    assert!(again.written.is_empty());
    let more = deliver(&mut transcript, &vec![mail(5, "b", "two"), mail(6, "b", "three")], 9);
    assert_eq!(more.marks, [(5, 1), (6, 2)]);
    assert_eq!(transcript.entries.len(), 3);
}

#[test]
fn a_waiting_send_returns_the_recipients_reply() {
    let plan = waiting_plan("b", "a");
    assert_eq!(message::advance(&plan, Event::Sent(1)), message::Step::AwaitReply { after: 1 });
    let inbox = vec![mail(1, "b", "before"), mail(2, "c", "other"), mail(3, "b", "42")];
    let reply = find_reply(&inbox, "b", 1).unwrap();
    let output = answer(&plan, Event::Replied(reply));
    assert_eq!(output.delivers, Some(3));
    let mut turn = begin(vec![input("user", "ask b")]);
    turn.answer(vec![calls("m1", "send_message", "{}")], false, 0);
    let entry = turn.result(output, 0);
    assert_eq!(entry.event, Some(3));
    let Item::ToolResult { output, .. } = entry.item else { panic!("a call has a result") };
    assert_eq!(answered(output), "Reply from agent b:\n42");
    let delivery = turn.deliver(&vec![mail(3, "b", "42")], 0);
    assert!(delivery.written.is_empty(), "the reply is not delivered twice");
}

#[test]
fn a_wait_that_times_out_leaves_the_reply_to_arrive_as_mail() {
    let plan = waiting_plan("b", "a");
    let output = answer(&plan, Event::TimedOut { seconds: "1".into(), one: true });
    assert_eq!(output.delivers, None);
    let mut turn = begin(vec![input("user", "ask b")]);
    turn.answer(vec![calls("m1", "send_message", "{}")], false, 0);
    let entry = turn.result(output, 0);
    let Item::ToolResult { output, .. } = entry.item else { panic!("a call has a result") };
    assert_eq!(
        answered(output),
        "No reply from agent b within 1 second. A reply will arrive as a message."
    );
    turn.deliver(&vec![mail(2, "b", "late answer")], 0);
    assert_eq!(items(&turn).last(), Some(&input("b", "late answer")));
    let output = answer(&plan, Event::TimedOut { seconds: "1.5".into(), one: false });
    assert_eq!(
        answered(output),
        "No reply from agent b within 1.5 seconds. A reply will arrive as a message."
    );
}

#[test]
fn interrupting_a_waiting_agent_ends_the_wait() {
    let output = answer(&waiting_plan("b", "a"), Event::Interrupted);
    assert!(output.is_error);
    assert_eq!(answered(output), "Stopped waiting for a reply from agent b: interrupted.");
}

#[test]
fn host_recipients_receive_mail_and_their_replies_end_waits() {
    assert_eq!(address("user", &names(&["user"]), false), Ok(Address::Host));
    let reply = find_reply(&vec![mail(4, "user", "yes")], "user", 0).unwrap();
    assert_eq!(reply, Reply { id: 4, text: "yes".into() });
    assert_eq!(answered(answer(&waiting_plan("user", "a"), Event::Replied(reply))), "Reply from the user:\nyes");
    let args = Json::Object(vec![("agent".into(), text("user")), ("text".into(), text("Deployed."))]);
    let plan = message::plan(&args, "a").unwrap();
    assert_eq!(answered(answer(&plan, Event::Sent(5))), "Message sent to the user.");
}

#[test]
fn a_reply_claimed_by_a_wait_is_not_redelivered_after_a_restart() {
    let mut transcript = Transcript::new(vec![]);
    transcript.append(input("user", "ask"), Some(1), 0);
    transcript.append(calls("m1", "send_message", "{}"), None, 0);
    let output = answer(&waiting_plan("b", "a"), Event::Replied(Reply { id: 2, text: "r".into() }));
    transcript.append(Item::ToolResult { call_id: "m1".into(), output }, Some(2), 0);
    transcript.append(says("done"), None, 0);
    let (mut turn, closed) = Turn::begin(transcript, false, 0);
    assert!(closed.is_empty());
    let delivery = turn.deliver(&vec![mail(2, "b", "r")], 0);
    assert_eq!((delivery.written.len(), delivery.marks), (0, vec![(2, 2)]));
    assert_eq!(turn.next(), Step::End(Ended::Idle));
}

#[test]
fn a_full_context_is_compacted_into_a_summary_and_the_turn_continues() {
    let window = Some(12);
    let took = Usage { input: 10, cached_input: 4, output: 5, reasoning: 1 };
    let mut turn = begin(vec![input("user", "print things")]);
    turn.answer(vec![calls("c1", "bash", "{}")], is_full(window, took), 0);
    turn.result(ToolOutput::text("lots of output".into()), 0);
    assert_eq!(turn.next(), Step::Compact { announce: true });
    let asked = compaction_items(turn.transcript());
    let Some(Item::Input { from, text: instruction }) = asked.last() else { panic!("the model is asked") };
    assert!(from == "user" && instruction.contains("summary"));
    assert_eq!(asked.len(), 4);
    let summary = summary_in(&vec![says("The user asked for output; bash printed it.")]);
    turn.compacted(summary, 0);
    assert_eq!(turn.next(), Step::Call { announce: true });
    let shown = context(turn.transcript());
    let (none, no_tools) = (None, vec![]);
    let request = Request {
        agent: "a",
        model: "m",
        reasoning_effort: &none,
        system: "",
        tools: &no_tools,
        items: &shown,
    };
    let sent = body(&request, false);
    let said = sent.get("input").unwrap().as_array().unwrap();
    assert_eq!(said.len(), 1);
    assert_eq!(
        said[0].get("content").unwrap().as_array().unwrap()[0].get("text"),
        Some(&text(
            "The conversation so far was compacted. Summary:\n\nThe user asked for output; bash printed it.\n\nContinue from here."
        ))
    );
    assert_eq!(sent.get("tools"), Some(&Json::List(vec![])));
    turn.answer(vec![says("Finished after compaction.")], is_full(None, took), 0);
    assert_eq!(turn.next(), Step::End(Ended::Idle));
    assert!(!is_full(Some(16), took) && is_full(Some(15), took));
}

#[test]
fn calls_are_made_with_json_to_tools_that_are_there() {
    let tools = names(&["read", "bash"]);
    let call = |name: &str, arguments: &str| Call {
        call_id: "c".into(),
        name: name.into(),
        arguments: arguments.into(),
    };
    let made = ready(&tools, &call("bash", "{\"command\":\"echo hi\"}")).unwrap();
    assert_eq!((made.tool, made.arguments.get("command")), (1, Some(&text("echo hi"))));
    let made = ready(&tools, &call("read", " \n")).unwrap();
    assert_eq!(made.arguments, Json::Object(vec![]));
    assert_eq!(ready(&tools, &call("fly", "{}")).unwrap_err(), "Tool fly not found");
    let error = ready(&tools, &call("read", "{")).unwrap_err();
    assert!(error.starts_with("Invalid JSON arguments for read: EOF"), "{error}");
    let error = ready_with(&tools, &call("read", "x"), Err("why".into())).unwrap_err();
    assert_eq!(error, "Invalid JSON arguments for read: why");
}

#[test]
fn calls_are_skipped_once_the_turn_is_cancelled() {
    let tools = names(&["read"]);
    let call = |name: &str| Call { call_id: "c".into(), name: name.into(), arguments: "{}".into() };
    assert_eq!(answer_call(false, &tools, &call("read")).unwrap().tool, 0);
    assert_eq!(
        answer_call(false, &tools, &call("fly")).unwrap_err(),
        ToolOutput::error("Tool fly not found".into())
    );
    assert_eq!(answer_call(true, &tools, &call("read")).unwrap_err(), skipped());
}

#[test]
fn json_keeps_its_parts() {
    let tools = names(&["t"]);
    let call = Call {
        call_id: String::new(),
        name: "t".into(),
        arguments: "{\"a\":[null,true,-1.5,\"x\",7],\"b\":{}}".into(),
    };
    assert_eq!(
        ready(&tools, &call).unwrap().arguments,
        Json::Object(vec![
            (
                "a".into(),
                Json::List(vec![
                    Json::Null,
                    Json::Bool(true),
                    Json::Number("-1.5".into()),
                    text("x"),
                    Json::Number("7".into())
                ])
            ),
            ("b".into(), Json::Object(vec![])),
        ])
    );
}

#[test]
fn calls_are_taken_from_an_answer_in_order() {
    let found = calls_of(&vec![says("first"), calls("1", "a", "x"), calls("2", "b", "y")]);
    let ids: Vec<&str> = found.iter().map(|call| call.call_id.as_str()).collect();
    assert_eq!(ids, ["1", "2"]);
    assert_eq!((found[1].name.as_str(), found[1].arguments.as_str()), ("b", "y"));
}

#[test]
fn later_tools_take_the_place_of_earlier_ones() {
    let tool = |name: &str, snippet: &str| ToolInfo {
        name: name.into(),
        description: String::new(),
        parameters: Json::Null,
        snippet: snippet.into(),
        guidelines: vec![],
    };
    let registered = vec![tool("a", "1"), tool("b", "2"), tool("a", "3")];
    assert_eq!(find_tool(&registered, "a"), Some(2));
    assert_eq!(find_tool(&registered, "z"), None);
    assert_eq!(select_tools(&names(&["b", "z", "a"]), &registered), [1, 2]);
    assert_eq!(tool_spec(&registered[1]).name, "b");
}

#[test]
fn prompts_list_tools_and_rules() {
    let all = builtin();
    let prompt = system_prompt("You are a test agent. \n", "a1", &all);
    assert!(prompt.starts_with("You are a test agent.\n\nYour agent id is a1.\n\nAvailable tools:\n- read: Read file contents\n- bash: "));
    assert!(prompt.contains("\n\nGuidelines:\n- Use read to examine files instead of cat or sed.\n- Use edit"));
    assert!(prompt.ends_with("\n- Use write only for new files or complete rewrites."));
    assert_eq!(system_prompt("x", "a", &vec![]), "x\n\nYour agent id is a.");
}

#[test]
fn torn_lines_are_dropped() {
    let bytes = b"{\"a\":1}\n{\"b\":2}\n{\"c\"".to_vec();
    assert_eq!(split_log(&bytes), [(0, 7), (8, 15)]);
    assert_eq!(recover(&bytes, 2), Some(16));
    assert_eq!(recover(&bytes, 1), Some(8));
    assert_eq!(recover(&bytes, 0), Some(0));
    assert_eq!(split_log(&b"x\n".to_vec()), [(0, 1)]);
    assert_eq!(recover(&b"x\n".to_vec(), 1), None);
    assert_eq!((split_log(&vec![]), recover(&vec![], 0)), (vec![], None));
    assert_eq!(split_log(&b"\n\ny".to_vec()), [(0, 0), (1, 1)]);
}

#[test]
fn an_entry_that_lacks_only_its_line_feed_is_dropped() {
    let mut bytes = b"{\"a\":1}\n{\"b\":2}".to_vec();
    assert_eq!(split_log(&bytes), [(0, 7)]);
    let keep = recover(&bytes, 1).unwrap();
    assert_eq!(keep, 8);
    bytes.truncate(keep);
    bytes.extend_from_slice(b"{\"c\":3}\n");
    assert_eq!(split_log(&bytes), [(0, 7), (8, 15)]);
    assert_eq!(&bytes[8..15], b"{\"c\":3}");
    assert_eq!(recover(&bytes, 2), None);
}

#[test]
fn unfinished_agents_are_woken() {
    assert!(is_unfinished(AgentState::Running, true, 0));
    assert!(is_unfinished(AgentState::Idle, false, 1));
    assert!(!is_unfinished(AgentState::Idle, true, 1));
    assert!(!is_unfinished(AgentState::Failed, false, 0));
}

#[test]
fn states_are_written_and_read() {
    for state in [AgentState::Idle, AgentState::Running, AgentState::Failed] {
        assert_eq!(AgentState::parse(state.as_str()), state);
    }
    assert_eq!(AgentState::parse("anything"), AgentState::Idle);
}

#[test]
fn ids_and_times_are_fresh() {
    let (first, second) = (new_agent_id(), new_agent_id());
    assert!(first != second && first.len() == 32);
    assert!(first.chars().all(|c| c.is_ascii_digit() || ('a'..='f').contains(&c)));
    let path = new_log_path();
    assert!(path.starts_with("/tmp/bash-") && path.ends_with(".log") && path.len() == 46);
    assert!(now_ms() > 1_600_000_000_000);
    assert_eq!((millis(Some(7)), millis(None)), (7, 0));
    assert_eq!(whole_millis(1_700_000_000, 999_999_999), 1_700_000_000_999);
    assert_eq!(transcript_path("/t", "a"), "/t/a/transcript.jsonl");
}

#[test]
fn harnesses_have_usual_places() {
    let builder = HarnessBuilder::new("/state");
    assert_eq!(builder.transcripts_dir(), "/state/transcripts");
    assert_eq!(builder.database(), "/state/harness.db");
    assert_eq!(builder.sandboxes_dir(), "/state/sandboxes");
    assert_eq!((builder.max_turns, builder.idle_grace_millis), (1024, 10000));
    let moved = builder.sandbox_dir("/elsewhere".into()).transcripts("/t".into());
    assert_eq!((moved.sandboxes_dir().as_str(), moved.transcripts_dir().as_str()), ("/elsewhere", "/t"));
    assert_eq!(moved.database(), "/state/harness.db");
    let tuned = moved.max_concurrent_turns(3).idle_grace(500);
    assert_eq!((tuned.max_turns, tuned.idle_grace_millis), (3, 500));
    assert_eq!(tuned.transcripts_dir(), "/t");
}
