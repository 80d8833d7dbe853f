use erisharness::agent::{Item, Usage};
use erisharness::json::Json;
use erisharness::provider::gate::{active, later_pause, unix_millis, Hold, RateGate, Wait, Waiting};
use erisharness::provider::responses::{
    body, input_item, output_item, status_failure, status_failure_with, succeeded, tool_output, usage, Again, Attempts,
    ResponsesConfig, Stream,
};
use erisharness::provider::sse::{payload, Parser};
use erisharness::provider::{Authorization, Request, StaticToken, ToolSpec};
use erisharness::tools::{Content, ToolOutput};

fn text(value: &str) -> Json {
    Json::Text(value.into())
}

fn number(value: &str) -> Json {
    Json::Number(value.into())
}

fn object(fields: Vec<(&str, Json)>) -> Json {
    Json::Object(fields.into_iter().map(|(key, value)| (key.to_owned(), value)).collect())
}

fn part(kind: &str, value: &str) -> Json {
    object(vec![("type", text(kind)), ("text", text(value))])
}

#[test]
fn splits_events_across_chunks() {
    let mut parser = Parser::default();
    assert!(parser.feed(b"event: a\ndata: {\"x\"").is_empty());
    assert_eq!(parser.feed(b":1}\n\ndata: two\r\n\r\n"), vec!["{\"x\":1}", "two"]);
    assert_eq!(parser.feed(b": comment\n\n"), Vec::<String>::new());
}

#[test]
fn events_do_not_depend_on_chunks() {
    let bytes = b"data: a\r\ndata:b\r\n\r\nid: 1\n\ndata:\xFF\n\n\ndata: tail";
    let whole = Parser::default().feed(bytes);
    assert_eq!(whole, ["a\nb", "\u{FFFD}"]);
    for size in 1..bytes.len() {
        let mut parser = Parser::default();
        let found: Vec<String> = bytes.chunks(size).flat_map(|chunk| parser.feed(chunk)).collect();
        assert_eq!(found, whole);
    }
    assert_eq!(payload("data:  x\nother\ndata"), Some(" x".to_owned()));
    assert_eq!(payload("nothing"), None);
}

fn request<'a>(effort: &'a Option<String>, tools: &'a Vec<ToolSpec>, items: &'a Vec<Item>) -> Request<'a> {
    Request { agent: "agent-1", model: "model-one", reasoning_effort: effort, system: "You are.", tools, items }
}

#[test]
fn each_agent_chooses_its_model_and_effort_and_can_change_them() {
    let (tools, items) = (vec![], vec![]);
    let high = Some("high".to_owned());
    let first = body(&request(&high, &tools, &items), false);
    assert_eq!(first.get("model"), Some(&text("model-one")));
    assert_eq!(
        first.get("reasoning"),
        Some(&object(vec![("effort", text("high")), ("summary", text("auto"))]))
    );
    let none = None;
    let changed = Request { model: "model-two", ..request(&none, &tools, &items) };
    let second = body(&changed, false);
    assert_eq!(second.get("model"), Some(&text("model-two")));
    assert!(second.get("reasoning").is_none());
}

#[test]
fn credentials_supply_headers_and_requests_carry_a_cache_key() {
    let config = ResponsesConfig {
        base_url: "https://host/v1//".into(),
        headers: vec![("x-test".into(), "1".into())],
        store: false,
        max_retries: 2,
    };
    let account = Authorization {
        token: "account-token".into(),
        headers: vec![("chatgpt-account-id".into(), "acct-1".into())],
    };
    assert_eq!(
        config.request_headers(&account),
        [("x-test".to_owned(), "1".to_owned()), ("chatgpt-account-id".to_owned(), "acct-1".to_owned())]
    );
    let none = None;
    let (tools, items) = (vec![], vec![]);
    assert_eq!(body(&request(&none, &tools, &items), false).get("prompt_cache_key"), Some(&text("agent-1")));
    assert_eq!(config.url(), "https://host/v1/responses");
    let fixed = StaticToken("secret-token".into()).authorize();
    assert_eq!((fixed.token.as_str(), fixed.headers.len()), ("secret-token", 0));
}

#[test]
fn requests_show_the_transcript_and_the_tools() {
    let tools = vec![ToolSpec { name: "read".into(), description: "Reads.".into(), parameters: Json::Null }];
    let items = vec![
        Item::Input { from: "user".into(), text: "Run echo hi".into() },
        Item::Reasoning { summary: vec!["lost".into()], encrypted: None },
        Item::ToolCall { call_id: "c1".into(), name: "bash".into(), arguments: "{}".into() },
        Item::ToolResult { call_id: "c1".into(), output: ToolOutput::text("hi\n".into()) },
    ];
    let none = None;
    let sent = body(&request(&none, &tools, &items), false);
    let input = sent.get("input").unwrap().as_array().unwrap();
    assert_eq!(input.len(), 3);
    assert_eq!(
        input[0],
        object(vec![
            ("role", text("user")),
            ("content", Json::List(vec![part("input_text", "Run echo hi")])),
        ])
    );
    assert_eq!(
        input[2],
        object(vec![("type", text("function_call_output")), ("call_id", text("c1")), ("output", text("hi\n"))])
    );
    assert_eq!(sent.get("stream"), Some(&Json::Bool(true)));
    assert_eq!(sent.get("store"), Some(&Json::Bool(false)));
    assert_eq!(sent.get("include"), Some(&Json::List(vec![text("reasoning.encrypted_content")])));
    assert!(body(&request(&none, &tools, &items), true).get("include").is_none());
    let shown = sent.get("tools").unwrap().as_array().unwrap();
    assert_eq!(shown[0].get("name"), Some(&text("read")));
    assert_eq!(shown[0].get("strict"), Some(&Json::Bool(false)));
}

#[test]
fn mail_and_summaries_are_shown_as_user_messages() {
    let shown = |item: Item| {
        let input = input_item(&item).unwrap();
        let content = input.get("content").unwrap().as_array().unwrap();
        content[0].get("text").unwrap().as_str().unwrap().to_owned()
    };
    assert_eq!(
        shown(Item::Input { from: "a1".into(), text: "ping".into() }),
        "[Message from agent a1]\nping"
    );
    assert_eq!(
        shown(Item::Compaction { summary: "S".into() }),
        "The conversation so far was compacted. Summary:\n\nS\n\nContinue from here."
    );
    assert_eq!(
        input_item(&Item::Assistant { text: "ok".into() }).unwrap().get("role"),
        Some(&text("assistant"))
    );
}

#[test]
fn reasoning_is_carried_back_to_the_provider() {
    let came = object(vec![
        ("type", text("reasoning")),
        ("id", text("rs_1")),
        ("summary", Json::List(vec![part("summary_text", "thinking")])),
        ("encrypted_content", text("opaque")),
    ]);
    let item = output_item(&came).unwrap();
    assert_eq!(
        input_item(&item).unwrap(),
        object(vec![
            ("type", text("reasoning")),
            ("summary", Json::List(vec![part("summary_text", "thinking")])),
            ("encrypted_content", text("opaque")),
        ])
    );
}

#[test]
fn items_come_back_as_they_were() {
    for came in [
        object(vec![
            ("type", text("message")),
            ("content", Json::List(vec![part("output_text", "a"), part("refusal", "x"), part("output_text", "b")])),
        ]),
        object(vec![
            ("type", text("reasoning")),
            ("summary", Json::List(vec![part("summary_text", "one"), part("summary_text", "two")])),
            ("encrypted_content", text("opaque")),
        ]),
        object(vec![
            ("type", text("function_call")),
            ("call_id", text("c1")),
            ("name", text("bash")),
            ("arguments", text("{}")),
        ]),
    ] {
        let item = output_item(&came).unwrap();
        assert_eq!(output_item(&input_item(&item).unwrap()).unwrap(), item);
    }
}

#[test]
fn results_with_images_become_lists() {
    assert_eq!(tool_output(&ToolOutput::new(vec![])), text(""));
    let both = ToolOutput::new(vec![
        Content::Text("see".into()),
        Content::Image { mime: "image/png".into(), data: "AAAA".into() },
    ]);
    assert_eq!(
        tool_output(&both),
        Json::List(vec![
            part("input_text", "see"),
            object(vec![("type", text("input_image")), ("image_url", text("data:image/png;base64,AAAA"))]),
        ])
    );
}

#[test]
fn output_items_are_told_by_their_type() {
    let message = object(vec![
        ("type", text("message")),
        ("content", Json::List(vec![part("output_text", "It "), part("refusal", "no"), part("output_text", "is.")])),
    ]);
    assert_eq!(output_item(&message), Some(Item::Assistant { text: "It is.".into() }));
    assert_eq!(output_item(&object(vec![("type", text("message"))])), None);
    assert_eq!(output_item(&object(vec![("type", text("web_search"))])), None);
    assert_eq!(output_item(&Json::Null), None);
    assert_eq!(
        output_item(&object(vec![("type", text("function_call")), ("name", text("bash"))])),
        Some(Item::ToolCall { call_id: String::new(), name: "bash".into(), arguments: String::new() })
    );
}

#[test]
fn usage_counts_what_is_there() {
    let value = object(vec![
        ("input_tokens", number("10")),
        ("output_tokens", number("5")),
        ("input_tokens_details", object(vec![("cached_tokens", number("4"))])),
        ("output_tokens_details", object(vec![("reasoning_tokens", number("1.5"))])),
    ]);
    assert_eq!(usage(&value), Usage { input: 10, cached_input: 4, output: 5, reasoning: 0 });
    assert_eq!(usage(&Json::Null), Usage::default());
    assert_eq!(number("18446744073709551615").as_u64(), Some(u64::MAX));
    assert_eq!(number("18446744073709551616").as_u64(), None);
    assert_eq!(number("-1").as_u64(), None);
}

#[test]
fn answers_stream_until_they_end() {
    let events = concat_events(&[
        "{\"type\":\"response.output_text.delta\",\"delta\":\"streamed \"}",
        "{\"type\":\"response.output_text.delta\",\"delta\":\"words\"}",
        "not json",
        "{\"type\":\"response.output_item.done\",\"item\":{\"type\":\"message\",\"content\":[{\"type\":\"output_text\",\"text\":\"streamed words\"}]}}",
        "{\"type\":\"response.completed\",\"response\":{\"usage\":{\"input_tokens\":10,\"output_tokens\":5}}}",
        "{\"type\":\"response.output_text.delta\",\"delta\":\"late\"}",
    ]);
    for size in [1, 3, 50, events.len()] {
        let mut stream = Stream::new();
        let deltas: Vec<String> = events.chunks(size).flat_map(|chunk| stream.feed(chunk)).collect();
        assert_eq!(deltas.concat(), "streamed words");
        assert!(stream.ended());
        let completion = stream.finish().unwrap();
        assert_eq!(completion.items, [Item::Assistant { text: "streamed words".into() }]);
        assert_eq!((completion.usage.input, completion.usage.output), (10, 5));
    }
}

fn concat_events(payloads: &[&str]) -> Vec<u8> {
    payloads.iter().map(|data| format!("data: {data}\n\n")).collect::<String>().into_bytes()
}

#[test]
fn answers_that_fail_say_why() {
    let mut stream = Stream::new();
    stream.feed(&concat_events(&["{\"type\":\"response.failed\",\"response\":{\"error\":{\"message\":\"too big\"}}}"]));
    let failure = stream.finish().unwrap_err();
    assert_eq!((failure.retry, failure.message.as_str()), (false, "too big"));
    let mut stream = Stream::new();
    stream.feed(&concat_events(&["{\"type\":\"error\",\"message\":\"broken\"}"]));
    assert_eq!(stream.finish().unwrap_err().message, "broken");
    let mut stream = Stream::new();
    stream.hear(&object(vec![("type", text("error"))]));
    assert_eq!(stream.finish().unwrap_err().message, "response failed");
    let failure = Stream::new().finish().unwrap_err();
    assert_eq!((failure.retry, failure.message.as_str()), (true, "stream ended before the response completed"));
}

#[test]
fn statuses_tell_what_passes() {
    let failure = status_failure(400, "{\"error\":{\"message\":\"scripted\"}}");
    assert_eq!((failure.retry, failure.message.as_str()), (false, "400 scripted"));
    let failure = status_failure(503, "busy");
    assert_eq!((failure.retry, failure.message.as_str()), (true, "503 busy"));
    assert!(status_failure(429, "").retry);
    assert_eq!(status_failure_with(404, "raw", &Ok(Json::Null)).message, "404 raw");
    assert!(succeeded(200) && succeeded(299) && !succeeded(300) && !succeeded(199));
}

#[test]
fn retries_back_off_and_end() {
    let mut attempts = Attempts::new(9);
    let waits: Vec<Again> = (0..9).map(|_| attempts.failed(true, false)).collect();
    let millis: Vec<u64> = waits.iter().map(|w| if let Again::After { millis } = w { *millis } else { 0 }).collect();
    assert_eq!(millis, [250, 500, 1000, 2000, 4000, 8000, 16000, 30000, 30000]);
    assert_eq!(attempts.failed(true, false), Again::GiveUp);
    let mut attempts = Attempts::new(2);
    assert_eq!(attempts.failed(true, true), Again::AfterAdvertised);
    assert_eq!(attempts.failed(true, false), Again::After { millis: 500 });
    assert_eq!(attempts.failed(true, true), Again::GiveUp);
    assert_eq!(Attempts::new(5).failed(false, true), Again::GiveUp);
    assert_eq!(Attempts::new(0).failed(true, false), Again::GiveUp);
}

#[test]
fn a_rate_limit_halves_the_slots() {
    let mut gate = RateGate::new(8, 64);
    assert_eq!(gate.slots(), 8);
    // Seven calls still hold slots, so one of the four that go is free.
    let excess = gate.rate_limited();
    assert_eq!((excess, gate.slots()), (4, 4));
    gate.retired(1);
    assert!(gate.released() && gate.released() && gate.released());
    assert!(!gate.released());
    for _ in 0..4 {
        gate.rate_limited();
    }
    assert_eq!(gate.slots(), 1);
}

#[test]
fn successes_add_slots_up_to_the_maximum() {
    let mut gate = RateGate::new(2, 3);
    assert_eq!(gate.succeeded(2), 0);
    assert_eq!(gate.succeeded(3), 1);
    assert_eq!(gate.succeeded(9), 0);
    assert_eq!((gate.slots(), gate.limit()), (3, 3));
    // A slot in debt is taken over before one is added.
    let mut gate = RateGate::new(4, 4);
    assert_eq!(gate.rate_limited(), 2);
    assert_eq!(gate.succeeded(3), 0);
    assert!(gate.released() && !gate.released());
    assert_eq!(RateGate::new(0, 0).slots(), 1);
}

#[test]
fn a_call_with_a_free_slot_is_never_held() {
    assert_eq!(Waiting::new().look(true, None), (None, Wait::Over));
}

#[test]
fn holds_are_reported_as_they_begin_and_end() {
    let mut call = Waiting::new();
    assert_eq!(call.look(false, None), (Some(Some(Hold::Queued)), Wait::ForSlot));
    assert_eq!(call.look(false, None), (None, Wait::ForSlot));
    let limited = Some(Hold::RateLimited { until: 70 });
    assert_eq!(call.look(false, Some(70)), (Some(limited), Wait::ForSlot));
    assert_eq!(call.look(true, Some(70)), (None, Wait::ForPause));
    assert_eq!(call.look(false, None), (Some(None), Wait::Over));
}

#[test]
fn the_later_pause_counts_while_it_lasts() {
    assert_eq!(later_pause(None, 5), Some(5));
    assert_eq!(later_pause(Some(7), 5), Some(7));
    assert_eq!(later_pause(Some(3), 5), Some(5));
    assert_eq!(active(Some(5), 4), Some(5));
    assert_eq!(active(Some(5), 5), None);
    assert_eq!(active(None, 0), None);
    assert_eq!(unix_millis(Some(1_999_999)), 1);
    assert_eq!(unix_millis(None), 0);
}
