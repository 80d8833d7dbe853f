use erisharness::json::Json;
use erisharness::sandbox::ExitStatus;
use erisharness::tools::bash::{self, Act, Collected, Happened, Running, Stopped, Timeout};
use erisharness::tools::edit;
use erisharness::tools::errors::OsError;
use erisharness::tools::message::{self, Event, Step};
use erisharness::tools::read::{self, Scanner};
use erisharness::tools::{builtin, string_arg, Content, Reply, ToolOutput};

fn text(value: &str) -> Json {
    Json::Text(value.into())
}

fn object(fields: Vec<(&str, Json)>) -> Json {
    Json::Object(fields.into_iter().map(|(key, value)| (key.to_owned(), value)).collect())
}

fn said(output: &ToolOutput) -> String {
    output.content.iter().map(|part| if let Content::Text(text) = part { text.as_str() } else { "" }).collect()
}

fn scan(bytes: &[u8], start: usize, wanted: Option<usize>, chunk: usize) -> read::Page {
    let mut scanner = Scanner::new(start, wanted);
    for part in bytes.chunks(chunk) {
        scanner.feed(part);
    }
    assert_eq!(scanner.taken(), bytes.len());
    scanner.finish()
}

fn read_page(bytes: &[u8], path: &str, offset: &str, start: usize, wanted: Option<usize>) -> Result<String, String> {
    let page = scan(bytes, start, wanted, 7);
    read::answer(path, offset, start, wanted, &page).map(|output| said(&output))
}

fn numbers(upto: usize) -> Vec<u8> {
    (1..=upto).map(|n| format!("{n}\n")).collect::<String>().into_bytes()
}

#[test]
fn tools_describe_themselves() {
    let tools = builtin();
    let names: Vec<&str> = tools.iter().map(|tool| tool.name.as_str()).collect();
    assert_eq!(names, ["read", "bash", "edit", "write", "send_message"]);
    for tool in &tools {
        assert_eq!(tool.parameters.get("type"), Some(&text("object")));
        assert!(!tool.description.is_empty());
    }
    assert!(tools[0].description.contains("truncated to 2000 lines or 50KB"));
    assert!(tools[1].description.contains("last 2000 lines or 50KB"));
    assert_eq!(tools[2].guidelines.len(), 4);
    assert_eq!(
        tools[3].parameters.get("required"),
        Some(&Json::List(vec![text("path"), text("content")]))
    );
    assert_eq!(tools[4].snippet, "Message another agent or the user, optionally waiting for the reply");
}

#[test]
fn arguments_are_texts_that_are_there() {
    let args = object(vec![("a", text("x")), ("b", Json::Bool(true))]);
    assert_eq!(string_arg(&args, "a"), Ok("x"));
    assert_eq!(string_arg(&args, "b"), Err("Missing required string argument: b".to_owned()));
    assert_eq!(string_arg(&Json::Null, "a"), Err("Missing required string argument: a".to_owned()));
}

#[test]
fn read_returns_the_file() {
    assert_eq!(read_page(b"one\ntwo\n", "f.txt", "0", 0, None).unwrap(), "one\ntwo\n");
}

#[test]
fn read_pages_with_offset_and_limit() {
    let file = numbers(10);
    assert_eq!(
        read_page(&file, "n.txt", "3", 2, Some(2)).unwrap(),
        "3\n4\n\n[7 more lines in file. Use offset=5 to continue.]"
    );
    assert_eq!(read_page(&file, "n.txt", "10", 9, None).unwrap(), "10\n");
    assert_eq!(
        read_page(&file, "n.txt", "20", 19, None).unwrap_err(),
        "Offset 20 is beyond end of file (11 lines total)"
    );
}

#[test]
fn read_truncates_long_files() {
    let body = read_page(&numbers(2500), "long.txt", "0", 0, None).unwrap();
    assert!(body.ends_with("2000\n\n[Showing lines 1-2000 of 2501. Use offset=2001 to continue.]"));
    let wide = format!("{}\n", "x".repeat(2000)).repeat(30).into_bytes();
    let body = read_page(&wide, "wide.txt", "0", 0, None).unwrap();
    assert!(body.ends_with("\n\n[Showing lines 1-25 of 31 (50.0KB limit). Use offset=26 to continue.]"));
}

#[test]
fn read_reports_a_huge_first_line() {
    assert_eq!(
        read_page("x".repeat(61440).as_bytes(), "big", "0", 0, None).unwrap(),
        "[Line 1 is 60.0KB, exceeds 50.0KB limit. Use bash: sed -n '1p' big | head -c 51200]"
    );
}

#[test]
fn pages_do_not_depend_on_chunks() {
    let mut file = numbers(300);
    file.extend("y".repeat(60000).as_bytes());
    file.extend(b"\n\nlast \xFF");
    for wanted in [None, Some(0), Some(5), Some(400)] {
        let whole = scan(&file, 3, wanted, file.len());
        for chunk in [1, 2, 1000] {
            assert_eq!(scan(&file, 3, wanted, chunk), whole);
        }
        assert_eq!(whole.total_lines, 303);
    }
    assert_eq!(scan(&file, 302, None, 9).lines, vec![b"last \xFF".to_vec()]);
    assert_eq!(scan(&file, 300, Some(1), 9).lines[0].len(), 51201);
    assert_eq!(scan(&file, 300, Some(1), 9).first_line_bytes, 60000);
}

#[test]
fn read_shows_what_is_no_text_with_marks() {
    assert_eq!(read_page(b"a\xFFb", "f", "0", 0, None).unwrap(), "a\u{FFFD}b");
}

#[test]
fn images_are_told_by_their_first_bytes() {
    assert_eq!(read::image_type(b"\x89PNG\r\n\x1a\n\0\0"), Some("image/png"));
    assert_eq!(read::image_type(b"\xFF\xD8\xFF\xE0"), Some("image/jpeg"));
    assert_eq!(read::image_type(b"GIF87a"), Some("image/gif"));
    assert_eq!(read::image_type(b"GIF89a..."), Some("image/gif"));
    assert_eq!(read::image_type(b"RIFF....WEBPVP8 "), Some("image/webp"));
    assert_eq!(read::image_type(b"RIFF....WAVE"), None);
    assert_eq!(read::image_type(b"BM............"), Some("image/bmp"));
    assert_eq!(read::image_type(b"BM"), None);
    assert_eq!(read::image_type(b""), None);
}

#[test]
fn read_returns_images_as_attachments() {
    let output = read::image_output("image/png", &b"\x89PNG".to_vec());
    assert_eq!(
        output.content,
        vec![
            Content::Text("Read image file [image/png]".into()),
            Content::Image { mime: "image/png".into(), data: "iVBORw==".into() },
        ]
    );
    assert!(!output.is_error);
    assert_eq!(read::check_image("i.png", 20 * 1024 * 1024), Ok(()));
    assert_eq!(
        read::check_image("i.png", 20 * 1024 * 1024 + 1),
        Err("Image i.png is 20.0MB, larger than the 20.0MB limit.".to_owned())
    );
}

#[test]
fn only_regular_files_are_read() {
    assert_eq!(read::check_kind("d", true, false), Err("EISDIR: illegal operation on a directory, read".to_owned()));
    assert_eq!(read::check_kind("p", false, false), Err("Not a regular file: p".to_owned()));
    assert_eq!(read::check_kind("f", false, true), Ok(()));
    let plan = read::plan(&object(vec![("path", text("@sub/x"))]), "/w", "/root").unwrap();
    assert_eq!((plan.path.as_str(), plan.absolute.as_str()), ("@sub/x", "/w/sub/x"));
    assert_eq!(read::plan(&Json::Null, "/w", "/root").unwrap_err(), "Missing required string argument: path");
}

#[test]
fn write_plans_and_reports() {
    let args = object(vec![("path", text("deep/er/new.txt")), ("content", text("made\n"))]);
    let plan = erisharness::tools::write::plan(&args, "/w", "/root").unwrap();
    assert_eq!((plan.absolute.as_str(), plan.content.as_str()), ("/w/deep/er/new.txt", "made\n"));
    assert_eq!(said(&erisharness::tools::write::wrote(&plan.path)), "Successfully wrote to deep/er/new.txt");
    let error = erisharness::tools::write::plan(&object(vec![("path", text("x"))]), "/w", "/root").unwrap_err();
    assert_eq!(error, "Missing required string argument: content");
}

#[test]
fn edit_replaces_blocks_preserving_endings() {
    let one = |old: &str, new: &str| object(vec![("oldText", text(old)), ("newText", text(new))]);
    let args = object(vec![
        ("path", text("e.txt")),
        ("edits", Json::List(vec![one("alpha", "ALPHA"), one("gamma\n", "GAMMA\nDELTA\n")])),
    ]);
    let plan = edit::plan(&args, "/w", "/root").unwrap();
    let raw = b"\xef\xbb\xbfalpha\r\nbeta\r\ngamma\r\n".to_vec();
    let revision = edit::revise(&raw, &plan.edits, &plan.path).unwrap();
    assert_eq!(revision.output.as_bytes(), b"\xef\xbb\xbfALPHA\r\nbeta\r\nGAMMA\r\nDELTA\r\n");
    let output = edit::done(plan.edits.len(), &plan.path, &revision);
    assert_eq!(said(&output), "Successfully replaced 2 block(s) in e.txt.");
    let patch = output.details.get("patch").unwrap().as_str().unwrap();
    assert!(patch.contains("+GAMMA") && patch.starts_with("--- e.txt\n+++ e.txt\n"), "{patch}");
    assert_eq!(output.details.get("firstChangedLine"), Some(&Json::Number("1".into())));
}

#[test]
fn the_first_changed_line_is_counted_in_the_new_text() {
    let steps = vec![(true, 0), (false, 6), (true, 7)];
    let output = edit::report(1, "f", "patch", &steps);
    assert_eq!(output.details.get("firstChangedLine"), Some(&Json::Number("7".into())));
    let output = edit::report(1, "f", "patch", &vec![(true, 0)]);
    assert_eq!(output.details.get("firstChangedLine"), Some(&Json::Null));
    let revision = edit::revise_text("a\nb\nc\n", &edit::replacements(&object(vec![("oldText", text("b")), ("newText", text("B"))])).unwrap(), "f").unwrap();
    assert_eq!(edit::done(1, "f", &revision).details.get("firstChangedLine"), Some(&Json::Number("2".into())));
}

#[test]
fn edit_accepts_legacy_argument_shapes() {
    let mut file = b"one two three\n".to_vec();
    let shapes = [
        object(vec![("path", text("l.txt")), ("oldText", text("one")), ("newText", text("1"))]),
        object(vec![("path", text("l.txt")), ("edits", text("[{\"oldText\":\"two\",\"newText\":\"2\"}]"))]),
        object(vec![
            ("path", text("l.txt")),
            ("edits", object(vec![("oldText", text("three")), ("newText", text("3"))])),
        ]),
    ];
    for args in shapes {
        let plan = edit::plan(&args, "/w", "/root").unwrap();
        assert_eq!(plan.edits.len(), 1);
        file = edit::revise(&file, &plan.edits, &plan.path).unwrap().output.into_bytes();
    }
    assert_eq!(file, b"1 2 3\n");
}

#[test]
fn edit_reports_what_it_cannot_use() {
    let invalid = "Edit tool input is invalid. edits must contain at least one replacement.";
    for edits in [
        Json::List(vec![]),
        text("not json"),
        text("[{\"oldText\":\"a\"}]"),
        text("7"),
        Json::Bool(true),
        Json::List(vec![Json::Null]),
    ] {
        let args = object(vec![("path", text("nope.txt")), ("edits", edits)]);
        assert_eq!(edit::plan(&args, "/w", "/root").unwrap_err(), invalid);
    }
    let args = object(vec![("oldText", text("a")), ("newText", text("b"))]);
    assert_eq!(edit::plan(&args, "/w", "/root").unwrap_err(), "Edit tool input is invalid. path must be a string.");
    let missing = OsError { errno: Some(2), text: String::new() };
    assert_eq!(edit::open_error("nope.txt", &missing), "Could not edit file: nope.txt. Error code: ENOENT.");
    let held = edit::replacements_with(
        &object(vec![("edits", text("ignored"))]),
        &Ok(object(vec![("oldText", text("x")), ("newText", text("y"))])),
    )
    .unwrap();
    assert_eq!((held[0].old_text.as_str(), held[0].new_text.as_str()), ("x", "y"));
}

#[test]
fn bytes_that_are_no_text_are_edited_as_marks() {
    let edits = edit::replacements(&object(vec![("oldText", text("a")), ("newText", text("b"))])).unwrap();
    assert_eq!(edit::revise(&b"a\xFF".to_vec(), &edits, "f").unwrap().output, "b\u{FFFD}");
}

fn run(output: &[u8], log: Option<&str>) -> bash::Rendered {
    let mut collected = Collected::new();
    for chunk in output.chunks(16 * 1024) {
        let opened = if collected.needs_log(chunk) { log.map(str::to_owned) } else { None };
        collected.push(chunk, opened);
    }
    assert_eq!(collected.total_bytes(), output.len());
    collected.finish()
}

const EXITED: ExitStatus = ExitStatus { code: Some(0), signal: None };

#[test]
fn bash_returns_output() {
    let output = bash::outcome(None, EXITED, "", &run(b"out\nerr\n", None)).unwrap();
    assert_eq!(said(&output), "out\nerr\n");
    assert_eq!(output.details, Json::Null);
    assert_eq!(said(&bash::outcome(None, EXITED, "", &run(b"", None)).unwrap()), "(no output)");
}

#[test]
fn bash_reports_failures() {
    let failed = |code| ExitStatus { code: Some(code), signal: None };
    assert_eq!(
        bash::outcome(None, failed(3), "", &run(b"bad\n", None)).unwrap_err(),
        "bad\n\n\nCommand exited with code 3"
    );
    assert_eq!(
        bash::outcome(None, failed(4), "", &run(b"", None)).unwrap_err(),
        "(no output)\n\nCommand exited with code 4"
    );
    let signaled = ExitStatus { code: None, signal: Some(9) };
    assert!(bash::outcome(None, signaled, "", &run(b"", None)).unwrap_err().ends_with("code 137"));
}

#[test]
fn bash_times_out() {
    assert_eq!(
        bash::outcome(Some(Stopped::TimedOut), EXITED, "1", &run(b"start\n", None)).unwrap_err(),
        "start\n\n\nCommand timed out after 1 seconds"
    );
    assert_eq!(bash::outcome(Some(Stopped::Aborted), EXITED, "", &run(b"", None)).unwrap_err(), "Command aborted");
}

#[test]
fn bash_keeps_the_tail_and_saves_full_output() {
    let rendered = run(&numbers(3000), Some("/tmp/log"));
    let output = bash::outcome(None, EXITED, "", &rendered).unwrap();
    let body = said(&output);
    let (kept, notice) = body.split_once("\n\n[").unwrap();
    assert!(kept.starts_with("1001\n") && kept.ends_with("\n3000"));
    assert_eq!(notice, "Showing lines 1001-3000 of 3000. Full output: /tmp/log]");
    assert_eq!(output.details.get("fullOutputPath"), Some(&text("/tmp/log")));
    assert!(said(&bash::outcome(None, EXITED, "", &run(&numbers(3000), None)).unwrap()).ends_with("(unavailable)]"));
}

#[test]
fn bash_keeps_a_window_of_huge_output() {
    let line = format!("{}\n", "z".repeat(999));
    let rendered = run(line.repeat(1000).as_bytes(), Some("/tmp/log"));
    assert_eq!(rendered.content.lines().count(), 51);
    assert_eq!(
        rendered.notice.unwrap(),
        "[Showing lines 950-1000 of 1000 (50.0KB limit). Full output: /tmp/log]"
    );
    let rendered = run("w".repeat(300_000).as_bytes(), Some("/tmp/log"));
    assert_eq!(rendered.content.len(), 51200);
    assert_eq!(
        rendered.notice.unwrap(),
        "[Showing last 50.0KB of line 1 (line is 293.0KB). Full output: /tmp/log]"
    );
}

#[test]
fn windows_that_are_cut_begin_with_a_whole_line() {
    let mut collected = Collected::new();
    let chunk = vec![b'a'; 120_000];
    collected.push(&chunk, Some("/log".into()));
    collected.push(&chunk, None);
    assert_eq!(collected.window().len(), 102_400);
    assert_eq!(collected.render("cut\nwhole\n").content, "whole\n");
    assert_eq!(run(b"not cut\nat all", None).content, "not cut\nat all");
}

#[test]
fn a_command_is_killed_once() {
    let mut run = Running::start();
    assert_eq!(run.on(Happened::Wrote), Act::Collect);
    assert_eq!(run.on(Happened::Expired), Act::Kill);
    assert_eq!(run.on(Happened::Cancelled), Act::Nothing);
    assert_eq!(run.stopped, Some(Stopped::TimedOut));
    assert_eq!(run.on(Happened::GraceOver), Act::Nothing);
    assert_eq!(run.on(Happened::Exited), Act::Nothing);
    assert!(!run.is_over());
    assert_eq!(run.on(Happened::Wrote), Act::Collect);
    run.on(Happened::GraceOver);
    assert!(run.is_over());
    let mut aborted = Running::start();
    assert_eq!(aborted.on(Happened::Cancelled), Act::Kill);
    assert_eq!(aborted.stopped, Some(Stopped::Aborted));
    aborted.on(Happened::Closed);
    assert_eq!(aborted.on(Happened::Wrote), Act::Nothing);
}

#[test]
fn bash_checks_its_arguments() {
    let args = object(vec![("command", text("echo hi"))]);
    assert_eq!(bash::plan(&args, Timeout::Fine, "").unwrap(), ["bash", "-c", "echo hi"]);
    assert_eq!(
        bash::plan(&args, Timeout::Invalid, "").unwrap_err(),
        "Invalid timeout: must be a finite number of seconds"
    );
    assert_eq!(
        bash::plan(&args, Timeout::TooLong, "2147483.647").unwrap_err(),
        "Invalid timeout: maximum is 2147483.647 seconds"
    );
    assert_eq!(bash::plan(&Json::Null, Timeout::Fine, "").unwrap_err(), "Missing required string argument: command");
    assert_eq!(
        bash::spawn_error("Working directory does not exist: /x"),
        "Working directory does not exist: /x\nCannot execute bash commands."
    );
    assert_eq!(bash::spawn_error("bash: denied"), "bash: denied");
}

#[test]
fn messages_are_checked_and_answered() {
    let args = |to: &str, wait| object(vec![("agent", text(to)), ("text", text("hi")), ("wait", Json::Bool(wait))]);
    assert_eq!(message::plan(&args("me", false), "me").unwrap_err(), "You cannot message yourself.");
    assert_eq!(message::plan(&object(vec![]), "me").unwrap_err(), "Missing required string argument: agent");
    let plan = message::plan(&args("b", false), "me").unwrap();
    assert_eq!(
        message::advance(&plan, Event::Sent(4)),
        Step::Answer(ToolOutput::text("Message queued for agent b.".into()))
    );
    assert_eq!(
        message::advance(&plan, Event::Refused("No agent b".into())),
        Step::Answer(ToolOutput::error("No agent b".into()))
    );
    let plan = message::plan(&args("user", false), "me").unwrap();
    assert_eq!(
        message::advance(&plan, Event::Sent(4)),
        Step::Answer(ToolOutput::text("Message sent to the user.".into()))
    );
    let plan = message::plan(&args("user", true), "me").unwrap();
    assert_eq!(message::advance(&plan, Event::Sent(4)), Step::AwaitReply { after: 4 });
    let Step::Answer(output) = message::advance(&plan, Event::Replied(Reply { id: 9, text: "yes".into() })) else {
        panic!("a reply answers")
    };
    assert_eq!(said(&output), "Reply from the user:\nyes");
    assert_eq!(output.delivers, Some(9));
}

#[test]
fn logged_output_keeps_no_more_than_two_windows() {
    let mut collected = Collected::new();
    for _ in 0..100 {
        let chunk = vec![b'a'; 16 * 1024];
        let opened = if collected.needs_log(&chunk) { Some("/log".to_owned()) } else { None };
        collected.push(&chunk, opened);
        assert!(collected.window().len() <= 2 * bash::TAIL_WINDOW);
    }
    assert!(collected.window().len() >= bash::TAIL_WINDOW);
    assert_eq!(collected.total_bytes(), 100 * 16 * 1024);
}
