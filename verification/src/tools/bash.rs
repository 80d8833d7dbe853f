//! The `bash` tool. Each call is a fresh `bash -c` in the machine's working directory. Output
//! memory is bounded: once output passes the limits the full log streams to a file on the
//! machine and only a tail window stays in memory.

use crate::json;
use crate::json::{no_fields, no_items, put, put_item, sealed, Json};
use crate::sandbox::ExitStatus;
use crate::strings;
use crate::strings::{chars_of, is_at, number, position, signed_number, text_between, text_from_utf8};
use crate::tools;
use crate::tools::text;
use crate::tools::text::{
    format_size, truncate_tail, Truncation, TruncatedBy, DEFAULT_MAX_BYTES, DEFAULT_MAX_LINES,
};
use crate::tools::{property, schema, string_arg, ToolInfo, ToolOutput};
use vstd::prelude::*;

verus! {

/// Tail kept in memory once output overflows; twice the limit so a whole final page fits.
pub const TAIL_WINDOW: usize = 102400;

pub struct Bash;

pub open spec fn about() -> Seq<char> {
    "Execute a bash command in the current working directory. Returns stdout and stderr. Output is truncated to last "@
        + strings::decimal(DEFAULT_MAX_LINES as nat) + " lines or "@ + strings::decimal(
        DEFAULT_MAX_BYTES as nat / 1024,
    )
        + "KB (whichever is hit first). If truncated, full output is saved to a temp file. Optionally provide a timeout in seconds."@
}

pub open spec fn parameters_of() -> json::JsonView {
    tools::schema_of(
        seq![
            ("command"@, tools::property_of("string"@, "Shell command to execute"@)),
            (
                "timeout"@,
                tools::property_of("number"@, "Timeout in seconds (optional, no default timeout)"@),
            ),
        ],
        seq![json::JsonView::Text("command"@)],
    )
}

pub open spec fn info_of() -> tools::InfoView {
    tools::InfoView {
        name: "bash"@,
        description: about(),
        parameters: parameters_of(),
        snippet: "Execute bash commands (ls, grep, find, etc.)"@,
        guidelines: Seq::empty(),
    }
}

impl Bash {
    pub fn name(&self) -> (name: &'static str)
        ensures
            name@ == info_of().name,
    {
        "bash"
    }

    pub fn description(&self) -> (description: String)
        ensures
            description@ == info_of().description,
    {
        let mut description = "Execute a bash command in the current working directory. Returns stdout and stderr. Output is truncated to last ".to_owned();
        description.append(number(DEFAULT_MAX_LINES as u128).as_str());
        description.append(" lines or ");
        description.append(number((DEFAULT_MAX_BYTES / 1024) as u128).as_str());
        description.append(
            "KB (whichever is hit first). If truncated, full output is saved to a temp file. Optionally provide a timeout in seconds.",
        );
        description
    }

    pub fn parameters(&self) -> (parameters: Json)
        ensures
            parameters@ == info_of().parameters,
    {
        let mut properties = no_fields();
        put(&mut properties, "command", property("string", "Shell command to execute"));
        put(
            &mut properties,
            "timeout",
            property("number", "Timeout in seconds (optional, no default timeout)"),
        );
        let mut required = no_items();
        put_item(&mut required, json::text("command"));
        proof {
            let wanted = parameters_of()->Object_0;
            assert(json::field_views(properties@) =~= wanted[1].1->Object_0);
            assert(json::views(required@) =~= wanted[2].1->List_0);
        }
        schema(properties, required)
    }

    pub fn snippet(&self) -> (snippet: &'static str)
        ensures
            snippet@ == info_of().snippet,
    {
        "Execute bash commands (ls, grep, find, etc.)"
    }

    pub fn guidelines(&self) -> (guidelines: Vec<String>)
        ensures
            strings::texts(guidelines@) == info_of().guidelines,
    {
        let guidelines: Vec<String> = Vec::new();
        assert(strings::texts(guidelines@) =~= info_of().guidelines);
        guidelines
    }

    pub fn info(&self) -> (info: ToolInfo)
        ensures
            info@ == info_of(),
    {
        ToolInfo {
            name: self.name().to_owned(),
            description: self.description(),
            parameters: self.parameters(),
            snippet: self.snippet().to_owned(),
            guidelines: self.guidelines(),
        }
    }
}

// ---- What a call asks for ----

/// How a timeout compares to those that can be waited for.
#[derive(Clone, Copy, Debug, PartialEq, Eq, Structural)]
pub enum Timeout {
    /// None was given, or one that can be waited for.
    Fine,
    /// Not a positive finite number.
    Invalid,
    /// More seconds than can be waited for.
    TooLong,
}

pub open spec fn timeout_error(timeout: Timeout, longest: Seq<char>) -> Seq<char> {
    match timeout {
        Timeout::TooLong => "Invalid timeout: maximum is "@ + longest + " seconds"@,
        _ => "Invalid timeout: must be a finite number of seconds"@,
    }
}

/// The program and arguments that run a command, found through PATH: not every host has
/// `/bin/bash`.
pub fn plan(args: &Json, timeout: Timeout, longest: &str) -> (result: Result<Vec<String>, String>)
    ensures
        match tools::wanted_text(args@, "command"@) {
            None => result matches Err(error) && error@ == tools::missing_argument("command"@),
            Some(command) => if timeout == Timeout::Fine {
                result matches Ok(argv) && strings::texts(argv@) == seq!["bash"@, "-c"@, command]
            } else {
                result matches Err(error) && error@ == timeout_error(timeout, longest@)
            },
        },
{
    let command = match string_arg(args, "command") {
        Ok(command) => command,
        Err(error) => {
            return Err(error);
        },
    };
    match timeout {
        Timeout::Fine => {},
        Timeout::Invalid => {
            return Err("Invalid timeout: must be a finite number of seconds".to_owned());
        },
        Timeout::TooLong => {
            let mut error = "Invalid timeout: maximum is ".to_owned();
            error.append(longest);
            error.append(" seconds");
            return Err(error);
        },
    }
    let argv: Vec<String> = vec!["bash".to_owned(), "-c".to_owned(), command.to_owned()];
    assert(strings::texts(argv@) =~= seq!["bash"@, "-c"@, command@]);
    Ok(argv)
}

/// What is answered where the command cannot be started.
pub open spec fn start_error(message: Seq<char>) -> Seq<char> {
    if strings::stands_at(message, "Working directory does not exist"@, 0) {
        message + "\nCannot execute bash commands."@
    } else {
        message
    }
}

/// Where the working directory is missing, it is said that no command can be run; any other error
/// is told as it is.
pub proof fn law_a_missing_directory_is_explained(rest: Seq<char>, message: Seq<char>)
    ensures
        start_error("Working directory does not exist"@ + rest)
            == "Working directory does not exist"@ + rest + "\nCannot execute bash commands."@,
        !strings::stands_at(message, "Working directory does not exist"@, 0) ==> start_error(
            message,
        ) == message,
        timeout_error(Timeout::TooLong, rest) == "Invalid timeout: maximum is "@ + rest
            + " seconds"@,
        timeout_error(Timeout::Invalid, rest)
            == "Invalid timeout: must be a finite number of seconds"@,
{
    let prefix = "Working directory does not exist"@;
    assert((prefix + rest).subrange(0, prefix.len() as int) =~= prefix);
}

pub fn spawn_error(message: &str) -> (text: String)
    ensures
        text@ == start_error(message@),
{
    let chars = chars_of(message);
    let prefix = chars_of("Working directory does not exist");
    let mut text = message.to_owned();
    if is_at(&chars, &prefix, 0) {
        text.append("\nCannot execute bash commands.");
    }
    text
}

// ---- Running ----

/// Why a command was stopped.
#[derive(Clone, Copy, Debug, PartialEq, Eq, Structural)]
pub enum Stopped {
    TimedOut,
    Aborted,
}

/// What happens while a command runs.
#[derive(Clone, Copy, Debug, PartialEq, Eq, Structural)]
pub enum Happened {
    /// The command exited.
    Exited,
    /// It ran as long as it may.
    Expired,
    /// The agent was interrupted.
    Cancelled,
    /// It wrote something.
    Wrote,
    /// Its output ended.
    Closed,
    /// Output was collected long enough after the command exited.
    GraceOver,
}

/// What to do about it.
#[derive(Clone, Copy, Debug, PartialEq, Eq, Structural)]
pub enum Act {
    Nothing,
    /// Kill the command, and keep waiting for it to exit.
    Kill,
    /// Add what it wrote to its output.
    Collect,
}

/// A command that runs, or whose output is still collected.
#[derive(Clone, Copy, Debug, PartialEq, Eq, Structural)]
pub struct Running {
    pub stopped: Option<Stopped>,
    pub exited: bool,
    pub open: bool,
}

/// What a command becomes when something happens.
pub open spec fn after(run: Running, happened: Happened) -> Running {
    match happened {
        Happened::Exited => Running { exited: true, ..run },
        Happened::Expired => if run.stopped is None && !run.exited {
            Running { stopped: Some(Stopped::TimedOut), ..run }
        } else {
            run
        },
        Happened::Cancelled => if run.stopped is None && !run.exited {
            Running { stopped: Some(Stopped::Aborted), ..run }
        } else {
            run
        },
        Happened::Wrote => run,
        Happened::Closed => Running { open: false, ..run },
        Happened::GraceOver => if run.exited {
            Running { open: false, ..run }
        } else {
            run
        },
    }
}

pub open spec fn act_on(run: Running, happened: Happened) -> Act {
    match happened {
        Happened::Expired | Happened::Cancelled => if run.stopped is None && !run.exited {
            Act::Kill
        } else {
            Act::Nothing
        },
        Happened::Wrote => if run.open {
            Act::Collect
        } else {
            Act::Nothing
        },
        _ => Act::Nothing,
    }
}

impl Running {
    pub fn start() -> (run: Self)
        ensures
            run == (Running { stopped: None, exited: false, open: true }),
    {
        Running { stopped: None, exited: false, open: true }
    }

    /// Whether the command exited and its output was collected.
    pub fn is_over(&self) -> (over: bool)
        ensures
            over == (self.exited && !self.open),
    {
        self.exited && !self.open
    }

    /// A timeout or cancellation kills the command once, and it is still waited for. After it
    /// exits, whatever is already buffered is collected: background processes may hold the
    /// pipe open.
    pub fn on(&mut self, happened: Happened) -> (act: Act)
        ensures
            *final(self) == after(*old(self), happened),
            act == act_on(*old(self), happened),
    {
        match happened {
            Happened::Exited => {
                self.exited = true;
                Act::Nothing
            },
            Happened::Expired => if self.stopped.is_none() && !self.exited {
                self.stopped = Some(Stopped::TimedOut);
                Act::Kill
            } else {
                Act::Nothing
            },
            Happened::Cancelled => if self.stopped.is_none() && !self.exited {
                self.stopped = Some(Stopped::Aborted);
                Act::Kill
            } else {
                Act::Nothing
            },
            Happened::Wrote => if self.open {
                Act::Collect
            } else {
                Act::Nothing
            },
            Happened::Closed => {
                self.open = false;
                Act::Nothing
            },
            Happened::GraceOver => {
                if self.exited {
                    self.open = false;
                }
                Act::Nothing
            },
        }
    }
}

/// A command that runs too long or is cancelled is killed for that reason, unless it exited or was
/// stopped before. It exits only by itself, and what it writes is collected until its output ends
/// or the time after its exit is over.
pub proof fn law_what_happens_to_a_command(run: Running, happened: Happened)
    ensures
        !run.exited && run.stopped is None ==> {
            &&& after(run, Happened::Expired).stopped == Some(Stopped::TimedOut)
            &&& after(run, Happened::Cancelled).stopped == Some(Stopped::Aborted)
            &&& act_on(run, Happened::Expired) == Act::Kill
            &&& act_on(run, Happened::Cancelled) == Act::Kill
        },
        run.exited || run.stopped is Some ==> act_on(run, happened) != Act::Kill && after(
            run,
            happened,
        ).stopped == run.stopped,
        act_on(run, happened) == Act::Kill ==> happened == Happened::Expired || happened
            == Happened::Cancelled,
        after(run, happened).exited <==> run.exited || happened == Happened::Exited,
        after(run, happened).open <==> run.open && happened != Happened::Closed && !(happened
            == Happened::GraceOver && run.exited),
        act_on(run, happened) == Act::Collect <==> happened == Happened::Wrote && run.open,
{
}

/// What a command becomes through everything that happens.
pub open spec fn after_all(run: Running, happened: Seq<Happened>) -> Running
    decreases happened.len(),
{
    if happened.len() == 0 {
        run
    } else {
        after(after_all(run, happened.drop_last()), happened.last())
    }
}

/// How often a command is killed.
pub open spec fn kills(run: Running, happened: Seq<Happened>) -> nat
    decreases happened.len(),
{
    if happened.len() == 0 {
        0
    } else {
        let before = kills(run, happened.drop_last());
        if act_on(after_all(run, happened.drop_last()), happened.last()) == Act::Kill {
            before + 1
        } else {
            before
        }
    }
}

/// A command is killed at most once, exactly where it was stopped; and what stopped it first
/// is why it was stopped.
pub proof fn law_stopped_once(happened: Seq<Happened>)
    ensures
        ({
            let start = Running { stopped: None, exited: false, open: true };
            &&& kills(start, happened) == if after_all(start, happened).stopped is Some {
                1nat
            } else {
                0nat
            }
            &&& forall|i: int| #![trigger happened.take(i)]
                0 <= i <= happened.len() && after_all(start, happened.take(i)).stopped is Some
                    ==> after_all(start, happened).stopped == after_all(
                    start,
                    happened.take(i),
                ).stopped
        }),
    decreases happened.len(),
{
    let start = Running { stopped: None, exited: false, open: true };
    if happened.len() > 0 {
        let rest = happened.drop_last();
        law_stopped_once(rest);
        assert forall|i: int| #![trigger happened.take(i)]
            0 <= i <= happened.len() && after_all(start, happened.take(i)).stopped is Some implies after_all(
        start, happened).stopped == after_all(start, happened.take(i)).stopped by {
            if i < happened.len() {
                assert(rest.take(i) =~= happened.take(i));
            } else {
                assert(happened.take(i) =~= happened);
            }
        }
    } else {
        assert forall|i: int| #![trigger happened.take(i)]
            0 <= i <= happened.len() && after_all(start, happened.take(i)).stopped is Some implies after_all(
        start, happened).stopped == after_all(start, happened.take(i)).stopped by {
            assert(happened.take(i) =~= happened);
        }
    }
}

// ---- Output ----

/// The lines of output: one more than it has line feeds.
pub open spec fn output_lines(bytes: Seq<u8>) -> Seq<Seq<u8>> {
    strings::split_on(bytes, 10u8)
}

/// How many lines count: a final line feed does not begin another line.
pub open spec fn line_count(bytes: Seq<u8>) -> nat {
    if bytes.len() > 0 && bytes.last() != 10 {
        output_lines(bytes).len()
    } else {
        (output_lines(bytes).len() - 1) as nat
    }
}

/// Output counts as many lines as it has, whether the last one was ended or not.
pub proof fn law_a_final_line_feed_begins_no_line(lines: Seq<Seq<u8>>)
    requires
        lines.len() > 0,
        forall|i: int| #![trigger lines[i]] 0 <= i < lines.len() ==> !lines[i].contains(10u8),
    ensures
        line_count(strings::join(lines, seq![10u8]).push(10u8)) == lines.len(),
        lines.last().len() > 0 ==> line_count(strings::join(lines, seq![10u8])) == lines.len(),
        line_count(Seq::empty()) == 0,
{
    let all = strings::join(lines, seq![10u8]);
    let none = Seq::<u8>::empty();
    strings::lemma_split_join(lines, 10u8);
    assert(all.push(10u8).drop_last() =~= all);
    assert(strings::split_on(all.push(10u8), 10u8).len() == lines.len() + 1);
    if lines.last().len() > 0 {
        let last = lines.last();
        assert(last == lines[lines.len() - 1]);
        assert(last.contains(last.last()));
        if lines.len() == 1 {
            assert(all == last);
        } else {
            assert(all.last() == last.last());
        }
    }
    assert(strings::split_on(none, 10u8) =~= seq![none]);
}

/// Whether output is more than is shown.
pub open spec fn overflows(bytes: Seq<u8>) -> bool {
    bytes.len() > DEFAULT_MAX_BYTES || line_count(bytes) > DEFAULT_MAX_LINES
}

/// How long the last line is that holds anything, or the one before an empty last line.
pub open spec fn last_line_length(bytes: Seq<u8>) -> nat {
    let lines = output_lines(bytes);
    if lines.last().len() > 0 {
        lines.last().len()
    } else if lines.len() > 1 {
        lines[lines.len() - 2].len()
    } else {
        0
    }
}

/// Output of one command: everything while small, then a log file plus a tail window.
pub struct Collected {
    kept: Vec<u8>,
    log: Option<String>,
    total_bytes: usize,
    newlines: usize,
    last_byte: Option<u8>,
    line_bytes: usize,
    previous_line_bytes: usize,
    seen: Ghost<Seq<u8>>,
}

/// Counts over output.
#[derive(Clone, Copy)]
struct Counts {
    newlines: usize,
    last_byte: Option<u8>,
    line_bytes: usize,
    previous_line_bytes: usize,
}

impl Counts {
    spec fn of(self, bytes: Seq<u8>) -> bool {
        let lines = output_lines(bytes);
        &&& lines.len() >= 1
        &&& lines.len() <= bytes.len() + 1
        &&& self.newlines == lines.len() - 1
        &&& self.last_byte == if bytes.len() > 0 {
            Some(bytes.last())
        } else {
            None
        }
        &&& self.line_bytes == lines.last().len()
        &&& lines.last().len() <= bytes.len()
        &&& self.previous_line_bytes == if lines.len() > 1 {
            lines[lines.len() - 2].len()
        } else {
            0
        }
    }

    /// Counts one more byte.
    fn count(&mut self, byte: u8, Ghost(bytes): Ghost<Seq<u8>>)
        requires
            old(self).of(bytes),
            bytes.len() < usize::MAX,
        ensures
            final(self).of(bytes.push(byte)),
    {
        proof {
            let lines = output_lines(bytes);
            let now = output_lines(bytes.push(byte));
            assert(bytes.push(byte).drop_last() =~= bytes);
            if byte == 10 {
                assert(now == lines.push(Seq::<u8>::empty()));
                assert(now[now.len() - 2] == lines.last());
            } else {
                assert(now == lines.drop_last().push(lines.last().push(byte)));
                if lines.len() > 1 {
                    assert(now[now.len() - 2] == lines[lines.len() - 2]);
                }
            }
        }
        if byte == 10 {
            self.newlines = self.newlines + 1;
            self.previous_line_bytes = self.line_bytes;
            self.line_bytes = 0;
        } else {
            self.line_bytes = self.line_bytes + 1;
        }
        self.last_byte = Some(byte);
    }

    fn total_lines(&self, Ghost(bytes): Ghost<Seq<u8>>) -> (lines: usize)
        requires
            self.of(bytes),
            bytes.len() < usize::MAX,
        ensures
            lines == line_count(bytes),
    {
        match self.last_byte {
            Some(byte) => if byte != 10 {
                self.newlines + 1
            } else {
                self.newlines
            },
            None => self.newlines,
        }
    }
}

impl Collected {
    /// Everything that was collected.
    pub closed spec fn seen(self) -> Seq<u8> {
        self.seen@
    }

    /// The end of it that is still in memory.
    pub closed spec fn kept(self) -> Seq<u8> {
        self.kept@
    }

    /// Where the full output goes.
    pub closed spec fn log(self) -> Option<Seq<char>> {
        match self.log {
            Some(path) => Some(path@),
            None => None,
        }
    }

    spec fn has_counts(self) -> bool {
        (Counts {
            newlines: self.newlines,
            last_byte: self.last_byte,
            line_bytes: self.line_bytes,
            previous_line_bytes: self.previous_line_bytes,
        }).of(self.seen@)
    }

    /// The counts are those of the output; what is in memory is its end, all of it while there
    /// is no log, and a whole window at least.
    pub closed spec fn well_formed(self) -> bool {
        &&& self.has_counts()
        &&& self.total_bytes == self.seen@.len()
        &&& self.kept@.len() <= self.seen@.len()
        &&& self.kept@ == self.seen@.skip(self.seen@.len() - self.kept@.len())
        &&& self.log is None ==> self.kept@.len() == self.seen@.len()
        &&& self.kept@.len() == self.seen@.len() || self.kept@.len() >= TAIL_WINDOW
        &&& self.log is Some ==> self.kept@.len() <= 2 * TAIL_WINDOW
    }

    pub fn new() -> (collected: Self)
        ensures
            collected.well_formed(),
            collected.seen() == Seq::<u8>::empty(),
            collected.kept() == Seq::<u8>::empty(),
            collected.log() is None,
    {
        proof {
            let none = output_lines(Seq::<u8>::empty());
            assert(none =~= seq![Seq::<u8>::empty()]);
        }
        let collected = Self {
            kept: Vec::new(),
            log: None,
            total_bytes: 0,
            newlines: 0,
            last_byte: None,
            line_bytes: 0,
            previous_line_bytes: 0,
            seen: Ghost(Seq::empty()),
        };
        assert(collected.kept@ =~= collected.seen@.skip(0));
        collected
    }

    /// How many bytes were collected.
    pub fn total_bytes(&self) -> (total: usize)
        requires
            self.well_formed(),
        ensures
            total == self.seen().len(),
    {
        self.total_bytes
    }

    /// What a log that is opened now has to hold first.
    pub fn window(&self) -> (kept: &Vec<u8>)
        ensures
            kept@ == self.kept(),
    {
        &self.kept
    }

    fn counts_with(&self, bytes: &[u8]) -> (counts: Counts)
        requires
            self.well_formed(),
            self.seen@.len() + bytes@.len() < usize::MAX,
        ensures
            counts.of(self.seen@ + bytes@),
    {
        let mut counts = Counts {
            newlines: self.newlines,
            last_byte: self.last_byte,
            line_bytes: self.line_bytes,
            previous_line_bytes: self.previous_line_bytes,
        };
        let ghost before = self.seen@;
        let length: usize = bytes.len();
        let mut at: usize = 0;
        assert(before + bytes@.take(0) =~= before);
        while at < length
            invariant
                at <= length == bytes@.len(),
                before.len() + bytes@.len() < usize::MAX,
                counts.of(before + bytes@.take(at as int)),
            decreases length - at,
        {
            let ghost so_far = before + bytes@.take(at as int);
            counts.count(bytes[at], Ghost(so_far));
            assert(so_far.push(bytes@[at as int]) =~= before + bytes@.take(at + 1));
            at += 1;
        }
        assert(bytes@.take(at as int) =~= bytes@);
        counts
    }

    /// Whether a log has to be opened before these bytes are collected.
    pub fn needs_log(&self, bytes: &[u8]) -> (needed: bool)
        requires
            self.well_formed(),
            self.seen().len() + bytes@.len() < usize::MAX,
        ensures
            needed == (self.log() is None && overflows(self.seen() + bytes@)),
    {
        if self.log.is_some() {
            return false;
        }
        let counts = self.counts_with(bytes);
        let ghost all = self.seen@ + bytes@;
        let total: usize = self.total_bytes + bytes.len();
        total > DEFAULT_MAX_BYTES || counts.total_lines(Ghost(all)) > DEFAULT_MAX_LINES
    }

    /// Collects more output. `opened` is where a log was opened for it just now.
    pub fn push(&mut self, bytes: &[u8], opened: Option<String>)
        requires
            old(self).well_formed(),
            old(self).seen().len() + bytes@.len() < usize::MAX,
        ensures
            final(self).well_formed(),
            final(self).seen() == old(self).seen() + bytes@,
            final(self).log() == (if old(self).log() is Some {
                old(self).log()
            } else {
                match opened {
                    Some(path) => Some(path@),
                    None => None,
                }
            }),
            final(self).kept() == trimmed(
                old(self).kept() + bytes@,
                final(self).log() is Some,
            ),
    {
        let ghost before = *self;
        let ghost all = self.seen@ + bytes@;
        let counts = self.counts_with(bytes);
        self.newlines = counts.newlines;
        self.last_byte = counts.last_byte;
        self.line_bytes = counts.line_bytes;
        self.previous_line_bytes = counts.previous_line_bytes;
        self.total_bytes = self.total_bytes + bytes.len();
        self.seen = Ghost(all);
        if self.log.is_none() {
            self.log = opened;
        }
        self.kept.extend_from_slice(bytes);
        let ghost grown = before.kept@ + bytes@;
        proof {
            assert(self.kept@ =~= grown);
            assert(grown =~= all.skip(all.len() - grown.len()));
        }
        if self.log.is_some() && self.kept.len() > 2 * TAIL_WINDOW {
            let excess: usize = self.kept.len() - TAIL_WINDOW;
            let tail = self.kept.split_off(excess);
            self.kept = tail;
            proof {
                assert(self.kept@ =~= grown.skip(excess as int));
                assert(self.kept@ =~= all.skip(all.len() - TAIL_WINDOW));
            }
        }
    }

    /// What to show of the output, where the window reads as `text`.
    pub fn render(self, text: &str) -> (rendered: Rendered)
        requires
            self.well_formed(),
            self.seen().len() < usize::MAX,
        ensures
            is_rendered(
                rendered,
                self.seen(),
                self.log(),
                whole_lines(text@, self.kept().len() < self.seen().len()),
            ),
    {
        let ghost all = self.seen@;
        let chars = chars_of(text);
        let feed: Vec<char> = vec!['\n'];
        assert(feed@ =~= text::newline());
        // A trimmed window starts mid-line; that partial line is not the command's output.
        let length: usize = chars.len();
        let mut from: usize = 0;
        if self.kept.len() < self.total_bytes {
            match position(&chars, &feed) {
                Some(at) => {
                    from = at + 1;
                },
                None => {},
            }
        }
        let shown = text_between(&chars, from, length);
        assert(shown@ =~= whole_lines(text@, self.kept@.len() < all.len()));
        let tail = truncate_tail(shown.as_str(), DEFAULT_MAX_LINES, DEFAULT_MAX_BYTES);
        let ghost truncation = tail;
        let counts = Counts {
            newlines: self.newlines,
            last_byte: self.last_byte,
            line_bytes: self.line_bytes,
            previous_line_bytes: self.previous_line_bytes,
        };
        let total: usize = counts.total_lines(Ghost(all));
        if !(self.total_bytes > DEFAULT_MAX_BYTES || total > DEFAULT_MAX_LINES) {
            let rendered = Rendered { content: tail.content, notice: None, log: None };
            assert(renders(rendered, all, self.log(), truncation));
            return rendered;
        }
        let path = match self.log {
            Some(path) => path,
            None => "(unavailable)".to_owned(),
        };
        let total_text = number(total as u128);
        let mut notice = String::new();
        if tail.last_line_partial {
            let last_line: usize = if self.line_bytes > 0 {
                self.line_bytes
            } else {
                self.previous_line_bytes
            };
            notice = "[Showing last ".to_owned();
            notice.append(format_size(tail.output_bytes).as_str());
            notice.append(" of line ");
            notice.append(total_text.as_str());
            notice.append(" (line is ");
            notice.append(format_size(last_line).as_str());
            notice.append("). Full output: ");
        } else {
            let start: u128 = if tail.output_lines <= total {
                (total - tail.output_lines) as u128 + 1
            } else {
                1
            };
            let by_lines = match tail.truncated_by {
                Some(by) => by == TruncatedBy::Lines,
                None => false,
            };
            notice = "[Showing lines ".to_owned();
            notice.append(number(start).as_str());
            notice.append("-");
            notice.append(total_text.as_str());
            notice.append(" of ");
            notice.append(total_text.as_str());
            if by_lines || self.total_bytes <= DEFAULT_MAX_BYTES {
                notice.append(". Full output: ");
            } else {
                notice.append(" (");
                notice.append(format_size(DEFAULT_MAX_BYTES).as_str());
                notice.append(" limit). Full output: ");
            }
        }
        notice.append(path.as_str());
        notice.append("]");
        assert(notice@ == overflow_notice(all, path@, truncation));
        let rendered = Rendered { content: tail.content, notice: Some(notice), log: Some(path) };
        assert(renders(rendered, all, self.log(), truncation));
        rendered
    }

    /// What to show of the output.
    pub fn finish(self) -> (rendered: Rendered)
        requires
            self.well_formed(),
            self.seen().len() < usize::MAX,
        ensures
            is_rendered(
                rendered,
                self.seen(),
                self.log(),
                whole_lines(strings::lossy(self.kept()), self.kept().len() < self.seen().len()),
            ),
    {
        let text = text_from_utf8(&self.kept);
        self.render(text.as_str())
    }
}

/// What stays in memory: past twice the window, and with a log, only a window.
pub open spec fn trimmed(kept: Seq<u8>, logged: bool) -> Seq<u8> {
    if logged && kept.len() > 2 * TAIL_WINDOW {
        kept.skip(kept.len() - TAIL_WINDOW)
    } else {
        kept
    }
}

/// A window that was cut starts with its first whole line, where it has one.
pub open spec fn whole_lines(window: Seq<char>, cut: bool) -> Seq<char> {
    if cut {
        text::from_whole_line(window)
    } else {
        window
    }
}

/// A window holds a whole final page: what it shows is what all of the output would show, up to a
/// final line feed, unless nothing follows the line that it begins in.
pub proof fn law_a_window_shows_the_end(
    before: Seq<char>,
    window: Seq<char>,
    part: Truncation,
    whole: Truncation,
)
    requires
        strings::byte_len(window) >= TAIL_WINDOW,
        whole_lines(window, true).len() > 0,
        text::is_tail(
            whole_lines(window, true),
            DEFAULT_MAX_LINES as nat,
            DEFAULT_MAX_BYTES as nat,
            part,
        ),
        text::is_tail(
            before + window,
            DEFAULT_MAX_LINES as nat,
            DEFAULT_MAX_BYTES as nat,
            whole,
        ),
    ensures
        part.content@ == whole.content@ || part.content@ == whole.content@ + text::newline(),
        part.output_lines == whole.output_lines,
        part.last_line_partial == whole.last_line_partial,
{
    text::law_tail_needs_only_the_end(
        before,
        window,
        DEFAULT_MAX_LINES as nat,
        DEFAULT_MAX_BYTES as nat,
        part,
        whole,
    );
}

/// What stays in memory is the end of the output: all of it while there is no log. Once output is
/// logged, no more than twice the window stays, and where anything was dropped, a whole window
/// does.
pub proof fn law_memory_is_bounded(collected: Collected)
    requires
        collected.well_formed(),
    ensures
        collected.kept().len() <= collected.seen().len(),
        collected.log() is None ==> collected.kept() == collected.seen(),
        collected.log() is Some ==> collected.kept().len() <= 2 * TAIL_WINDOW,
        collected.kept().len() < collected.seen().len() ==> collected.kept().len() >= TAIL_WINDOW,
        collected.kept() == collected.seen().skip(
            collected.seen().len() - collected.kept().len(),
        ),
{
    assert(collected.seen().skip(0) =~= collected.seen());
}

/// Says what is shown of output that is more than is shown, and where all of it is.
pub open spec fn overflow_notice(all: Seq<u8>, path: Seq<char>, tail: Truncation) -> Seq<char> {
    let total = strings::decimal(line_count(all));
    let start = if tail.output_lines <= line_count(all) {
        (line_count(all) - tail.output_lines + 1) as nat
    } else {
        1
    };
    if tail.last_line_partial {
        "[Showing last "@ + text::size_text(tail.output_bytes as nat) + " of line "@ + total
            + " (line is "@ + text::size_text(last_line_length(all)) + "). Full output: "@ + path
            + "]"@
    } else if tail.truncated_by == Some(TruncatedBy::Lines) || all.len() <= DEFAULT_MAX_BYTES {
        "[Showing lines "@ + strings::decimal(start) + "-"@ + total + " of "@ + total
            + ". Full output: "@ + path + "]"@
    } else {
        "[Showing lines "@ + strings::decimal(start) + "-"@ + total + " of "@ + total + " ("@
            + text::size_text(DEFAULT_MAX_BYTES as nat) + " limit). Full output: "@ + path + "]"@
    }
}

/// Where some of the last lines are shown, the notice names them: it ends with the last line of the
/// output and begins so many lines before it that as many are named as are shown. It says where all
/// of the output is.
pub proof fn law_a_notice_names_the_lines_that_are_shown(
    all: Seq<u8>,
    path: Seq<char>,
    tail: Truncation,
)
    requires
        !tail.last_line_partial,
        0 < tail.output_lines <= line_count(all),
    ensures
        exists|first: nat|
            #![trigger strings::decimal(first)]
            {
                &&& first + tail.output_lines == line_count(all) + 1
                &&& tail.truncated_by == Some(TruncatedBy::Lines) || all.len() <= 51200
                    ==> overflow_notice(all, path, tail) == "[Showing lines "@ + strings::decimal(
                    first,
                ) + "-"@ + strings::decimal(line_count(all)) + " of "@ + strings::decimal(
                    line_count(all),
                ) + ". Full output: "@ + path + "]"@
                &&& tail.truncated_by != Some(TruncatedBy::Lines) && all.len() > 51200
                    ==> overflow_notice(all, path, tail) == "[Showing lines "@ + strings::decimal(
                    first,
                ) + "-"@ + strings::decimal(line_count(all)) + " of "@ + strings::decimal(
                    line_count(all),
                ) + " ("@ + text::size_text(51200) + " limit). Full output: "@ + path + "]"@
            },
{
    let first = (line_count(all) - tail.output_lines + 1) as nat;
    let shown = strings::decimal(first);
}

/// Where part of the last line is shown, the notice says how much of which line, how long that line
/// is, and where all of the output is.
pub proof fn law_a_notice_names_the_line_that_is_cut(
    all: Seq<u8>,
    path: Seq<char>,
    tail: Truncation,
    last: Seq<u8>,
)
    requires
        tail.last_line_partial,
        !last.contains(10u8),
        last.len() > 0,
        exists|before: Seq<u8>| all == #[trigger] (before.push(10u8) + last),
    ensures
        overflow_notice(all, path, tail) == "[Showing last "@ + text::size_text(
            tail.output_bytes as nat,
        ) + " of line "@ + strings::decimal(line_count(all)) + " (line is "@ + text::size_text(
            last.len(),
        ) + "). Full output: "@ + path + "]"@,
{
    let before = choose|before: Seq<u8>| all == #[trigger] (before.push(10u8) + last);
    strings::lemma_split_concat(before, last, 10u8);
    strings::lemma_split_join(seq![last], 10u8);
    assert(strings::join(seq![last], seq![10u8]) == last);
    assert(strings::split_on(all, 10u8).last() == last);
}

/// What is shown, from the truncation of what is in memory.
pub open spec fn renders(
    rendered: Rendered,
    all: Seq<u8>,
    log: Option<Seq<char>>,
    tail: Truncation,
) -> bool {
    let path = match log {
        Some(path) => path,
        None => "(unavailable)"@,
    };
    &&& rendered.content@ == tail.content@
    &&& if overflows(all) {
        &&& rendered.notice matches Some(notice) && notice@ == overflow_notice(all, path, tail)
        &&& rendered.log matches Some(log) && log@ == path
    } else {
        rendered.notice is None && rendered.log is None
    }
}

pub open spec fn is_rendered(
    rendered: Rendered,
    all: Seq<u8>,
    log: Option<Seq<char>>,
    shown: Seq<char>,
) -> bool {
    exists|tail: Truncation|
        #![trigger renders(rendered, all, log, tail)]
        text::is_tail(shown, DEFAULT_MAX_LINES as nat, DEFAULT_MAX_BYTES as nat, tail) && renders(
            rendered,
            all,
            log,
            tail,
        )
}

/// Output that is no more than is shown is shown whole, without a notice; of more, the end is shown
/// and the notice and the details name the log.
pub proof fn law_output_is_shown_or_logged(
    rendered: Rendered,
    all: Seq<u8>,
    log: Option<Seq<char>>,
    lines: Seq<Seq<char>>,
)
    requires
        lines.len() > 0,
        forall|i: int| #![trigger lines[i]] 0 <= i < lines.len() ==> !lines[i].contains('\n'),
        lines.last().len() > 0,
        is_rendered(rendered, all, log, strings::join(lines, seq!['\n'])),
    ensures
        lines.len() <= 2000 && strings::byte_len(strings::join(lines, seq!['\n'])) <= 51200
            ==> rendered.content@ == strings::join(lines, seq!['\n']),
        (rendered.notice is Some) == (all.len() > 51200 || line_count(all) > 2000),
        (rendered.log is Some) == (rendered.notice is Some),
        rendered.log matches Some(path) ==> path@ == match log {
            Some(path) => path,
            None => "(unavailable)"@,
        },
{
    let shown = strings::join(lines, seq!['\n']);
    let tail = choose|tail: Truncation|
        #![trigger renders(rendered, all, log, tail)]
        text::is_tail(shown, DEFAULT_MAX_LINES as nat, DEFAULT_MAX_BYTES as nat, tail) && renders(
            rendered,
            all,
            log,
            tail,
        );
    assert(shown + Seq::<char>::empty() =~= shown);
    text::law_tail_keeps_the_most_lines(lines, false, 2000, 51200, tail);
    text::lemma_line_within(lines, lines.len() - 1);
}

/// What is shown of a command's output.
#[derive(Clone, Debug, PartialEq, Eq)]
pub struct Rendered {
    pub content: String,
    pub notice: Option<String>,
    pub log: Option<String>,
}

/// The content, or `empty` in its place, and the notice.
pub open spec fn rendered_text(rendered: Rendered, empty: Seq<char>) -> Seq<char> {
    let body = if rendered.content@.len() == 0 {
        empty
    } else {
        rendered.content@
    };
    match rendered.notice {
        Some(notice) => body + "\n\n"@ + notice@,
        None => body,
    }
}

pub open spec fn rendered_details(rendered: Rendered) -> json::JsonView {
    match rendered.log {
        Some(path) => json::JsonView::Object(
            seq![("fullOutputPath"@, json::JsonView::Text(path@))],
        ),
        None => json::JsonView::Null,
    }
}

impl Rendered {
    pub fn text(&self, empty: &str) -> (text: String)
        ensures
            text@ == rendered_text(*self, empty@),
    {
        let mut text = if self.content.as_str().is_empty() {
            empty.to_owned()
        } else {
            self.content.clone()
        };
        match &self.notice {
            Some(notice) => {
                text.append("\n\n");
                text.append(notice.as_str());
            },
            None => {},
        }
        text
    }

    pub fn details(&self) -> (details: Json)
        ensures
            details@ == rendered_details(*self),
    {
        match &self.log {
            Some(path) => {
                let mut fields = no_fields();
                put(&mut fields, "fullOutputPath", json::text(path.as_str()));
                assert(json::field_views(fields@) =~= rendered_details(*self)->Object_0);
                sealed(fields)
            },
            None => Json::Null,
        }
    }
}

// ---- Answering ----

/// Output with how the command ended below it.
pub open spec fn with_status(rendered: Rendered, status: Seq<char>, empty: Seq<char>) -> Seq<char> {
    let text = rendered_text(rendered, empty);
    if text.len() == 0 {
        status
    } else {
        text + "\n\n"@ + status
    }
}

fn status_text(rendered: &Rendered, status: &str, empty: &str) -> (text: String)
    ensures
        text@ == with_status(*rendered, status@, empty@),
{
    let mut text = rendered.text(empty);
    if text.as_str().is_empty() {
        status.to_owned()
    } else {
        text.append("\n\n");
        text.append(status);
        text
    }
}

/// The error that a command answers, where it was stopped or failed.
pub open spec fn failure(
    stopped: Option<Stopped>,
    status: ExitStatus,
    seconds: Seq<char>,
    rendered: Rendered,
) -> Option<Seq<char>> {
    match stopped {
        Some(Stopped::TimedOut) => Some(
            with_status(
                rendered,
                "Command timed out after "@ + seconds + " seconds"@,
                Seq::empty(),
            ),
        ),
        Some(Stopped::Aborted) => Some(with_status(rendered, "Command aborted"@, Seq::empty())),
        None => if status.code == Some(0i32) {
            None
        } else {
            Some(
                with_status(
                    rendered,
                    "Command exited with code "@ + strings::decimal_int(status.shell_code()),
                    "(no output)"@,
                ),
            )
        },
    }
}

/// A command succeeds exactly where nothing stopped it and it exited with zero. Otherwise the answer
/// is its output, then why it was stopped or how it exited.
pub proof fn law_a_failed_command_tells_why(
    status: ExitStatus,
    seconds: Seq<char>,
    rendered: Rendered,
    stopped: Option<Stopped>,
)
    ensures
        failure(stopped, status, seconds, rendered) is None <==> stopped is None && status.code
            == Some(0i32),
        rendered.content@.len() > 0 && rendered.notice is None ==> {
            let output = rendered.content@;
            &&& failure(Some(Stopped::TimedOut), status, seconds, rendered) == Some(
                output + "\n\n"@ + ("Command timed out after "@ + seconds + " seconds"@),
            )
            &&& failure(Some(Stopped::Aborted), status, seconds, rendered) == Some(
                output + "\n\n"@ + "Command aborted"@,
            )
            &&& status.code is Some && status.code != Some(0i32) ==> failure(
                None,
                status,
                seconds,
                rendered,
            ) == Some(
                output + "\n\n"@ + ("Command exited with code "@ + strings::decimal_int(
                    status.code->0 as int,
                )),
            )
        },
        rendered.content@.len() == 0 && rendered.notice is None ==> {
            &&& failure(Some(Stopped::TimedOut), status, seconds, rendered) == Some(
                "Command timed out after "@ + seconds + " seconds"@,
            )
            &&& failure(Some(Stopped::Aborted), status, seconds, rendered) == Some(
                "Command aborted"@,
            )
            &&& rendered_text(rendered, "(no output)"@) == "(no output)"@
        },
        rendered.notice is Some && rendered.content@.len() > 0 ==> rendered_text(
            rendered,
            "(no output)"@,
        ) == rendered.content@ + "\n\n"@ + rendered.notice->0@,
        rendered.log matches Some(path) ==> rendered_details(rendered).get("fullOutputPath"@)
            == Some(json::JsonView::Text(path@)),
        rendered.log is None ==> rendered_details(rendered) == json::JsonView::Null,
{
    match rendered.log {
        Some(path) => {
            let fields = seq![("fullOutputPath"@, json::JsonView::Text(path@))];
            json::law_a_field_is_found_under_its_name(fields, "fullOutputPath"@, 0);
        },
        None => {},
    }
}

/// What a command answers. `seconds` is its timeout in words.
pub fn outcome(
    stopped: Option<Stopped>,
    status: ExitStatus,
    seconds: &str,
    rendered: &Rendered,
) -> (result: Result<ToolOutput, String>)
    requires
        status.is_usual(),
    ensures
        match failure(stopped, status, seconds@, *rendered) {
            Some(wording) => result matches Err(error) && error@ == wording,
            None => result matches Ok(output) && output@ == (tools::OutputView {
                details: rendered_details(*rendered),
                ..tools::said(rendered_text(*rendered, "(no output)"@), false)
            }),
        },
{
    proof {
        reveal_strlit("");
        assert(""@ =~= Seq::<char>::empty());
    }
    match stopped {
        Some(Stopped::TimedOut) => {
            let mut ended = "Command timed out after ".to_owned();
            ended.append(seconds);
            ended.append(" seconds");
            Err(status_text(rendered, ended.as_str(), ""))
        },
        Some(Stopped::Aborted) => Err(status_text(rendered, "Command aborted", "")),
        None => {
            if !status.success() {
                let mut ended = "Command exited with code ".to_owned();
                ended.append(signed_number(status.code() as i64).as_str());
                Err(status_text(rendered, ended.as_str(), "(no output)"))
            } else {
                let text = rendered.text("(no output)");
                Ok(ToolOutput::text(text).with_details(rendered.details()))
            }
        },
    }
}

} // verus!
