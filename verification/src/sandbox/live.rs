//! The harness's view of a running init: what keeps a sandbox live, when it may stop, and what
//! init's replies mean.

use crate::sandbox::proto::Reply;
use crate::sandbox::{killed, ExitStatus};
use vstd::prelude::*;

verus! {

// ---- Requests and activity ----

/// A running init: the ids of its requests, and what counts toward keeping it live.
#[derive(Clone, Copy, Debug, PartialEq, Eq, Structural)]
pub struct Live {
    next: u64,
    active: usize,
}

/// The id after this one.
pub open spec fn following(id: u64) -> u64 {
    if id == u64::MAX {
        0
    } else {
        (id + 1) as u64
    }
}

impl Live {
    pub closed spec fn next(self) -> u64 {
        self.next
    }

    /// Commands and requests in flight.
    pub closed spec fn active(self) -> nat {
        self.active as nat
    }

    pub fn new() -> (live: Self)
        ensures
            live.next() == 1,
            live.active() == 0,
    {
        Live { next: 1, active: 0 }
    }

    /// The id of the next request.
    pub fn next_id(&mut self) -> (id: u64)
        ensures
            id == old(self).next(),
            final(self).next() == following(old(self).next()),
            final(self).active() == old(self).active(),
    {
        let id: u64 = self.next;
        self.next = if id == u64::MAX {
            0
        } else {
            id + 1
        };
        id
    }

    /// Something begins in the sandbox.
    pub fn begin(&mut self)
        requires
            old(self).active() < usize::MAX,
        ensures
            final(self).active() == old(self).active() + 1,
            final(self).next() == old(self).next(),
    {
        self.active = self.active + 1;
    }

    /// Something ended. Returns whether it was the last, so that the idle timer starts.
    pub fn end(&mut self) -> (idle: bool)
        requires
            old(self).active() > 0,
        ensures
            final(self).active() == old(self).active() - 1,
            final(self).next() == old(self).next(),
            idle == (final(self).active() == 0),
    {
        self.active = self.active - 1;
        self.active == 0
    }

    /// How many commands and requests are in flight.
    pub fn in_flight(&self) -> (active: usize)
        ensures
            active == self.active(),
    {
        self.active
    }
}

/// The id of the request after `count` more.
pub open spec fn id_after(first: u64, count: nat) -> u64
    decreases count,
{
    if count == 0 {
        first
    } else {
        following(id_after(first, (count - 1) as nat))
    }
}

proof fn lemma_id_after(first: u64, count: nat)
    ensures
        id_after(first, count) == (first + count) % 0x1_0000_0000_0000_0000,
    decreases count,
{
    if count > 0 {
        lemma_id_after(first, (count - 1) as nat);
    }
}

/// The ids of two requests differ, as long as fewer than all numbers were used.
pub proof fn law_ids_differ(first: u64, i: nat, j: nat)
    requires
        i < j,
        j - i < 0x1_0000_0000_0000_0000,
    ensures
        id_after(first, i) != id_after(first, j),
{
    lemma_id_after(first, i);
    lemma_id_after(first, j);
}

// ---- Starting and stopping ----

/// What a request finds.
#[derive(Clone, Copy, Debug, PartialEq, Eq, Structural)]
pub enum Found {
    /// An init that runs.
    Running,
    /// One that exited and was not yet forgotten: forget it, and start another.
    Stale,
    /// None: start one.
    Nothing,
}

/// The running init, started if needed. `init` says whether one that was started is dead.
pub fn find_live(init: Option<bool>) -> (found: Found)
    ensures
        found == (match init {
            Some(dead) => if dead {
                Found::Stale
            } else {
                Found::Running
            },
            None => Found::Nothing,
        }),
{
    match init {
        Some(dead) => if dead {
            Found::Stale
        } else {
            Found::Running
        },
        None => Found::Nothing,
    }
}

/// How a sandbox is stopped.
#[derive(Clone, Copy, Debug, PartialEq, Eq, Structural)]
pub enum Stop {
    /// It does not run.
    Stopped,
    /// It stays up.
    Refused,
    /// Ask init to stop.
    Ask,
    /// Wait for init to exit, then forget it.
    AwaitExit,
}

pub open spec fn stop_of(init: Option<bool>, active: nat, force: bool) -> Stop {
    match init {
        None => Stop::Stopped,
        Some(dead) => if !force && active > 0 {
            Stop::Refused
        } else if dead {
            Stop::AwaitExit
        } else {
            Stop::Ask
        },
    }
}

/// Without `force`, a sandbox stays up while a request is in flight.
pub fn begin_stop(init: Option<bool>, active: usize, force: bool) -> (stop: Stop)
    ensures
        stop == stop_of(init, active as nat, force),
{
    match init {
        None => Stop::Stopped,
        Some(dead) => if !force && active > 0 {
            Stop::Refused
        } else if dead {
            Stop::AwaitExit
        } else {
            Stop::Ask
        },
    }
}

/// What init answered to being asked to stop; `None` where the socket closed.
pub fn after_asking(reply: &Option<Reply>) -> (stop: Stop)
    ensures
        stop == (match *reply {
            Some(Reply::ShutdownRefused { .. }) => Stop::Refused,
            _ => Stop::AwaitExit,
        }),
{
    match reply {
        Some(Reply::ShutdownRefused { .. }) => Stop::Refused,
        _ => Stop::AwaitExit,
    }
}

/// A sandbox that runs is asked to stop where nothing is in flight or it is forced to; one whose init
/// is dead is only waited for; and one that does not run has stopped.
pub proof fn law_a_sandbox_is_asked_to_stop(active: nat, force: bool)
    ensures
        stop_of(None, active, force) == Stop::Stopped,
        force || active == 0 ==> stop_of(Some(false), active, force) == Stop::Ask,
        force || active == 0 ==> stop_of(Some(true), active, force) == Stop::AwaitExit,
{
}

/// Nothing that is in flight is cut off but by force.
pub proof fn law_activity_keeps_a_sandbox_up(init: Option<bool>, active: nat)
    requires
        init is Some,
        active > 0,
    ensures
        stop_of(init, active, false) == Stop::Refused,
{
}

// ---- Replies ----

/// Who a reply is for.
#[derive(Clone, Copy, Debug, PartialEq, Eq, Structural)]
pub enum Recipient {
    /// Whoever waits for the sandbox to be set up.
    Setup,
    /// Whoever waits for this command to exit.
    Exit { id: u64, status: ExitStatus },
    /// Whoever waits for an answer to this request.
    Request { id: u64 },
}

pub fn route(reply: &Reply) -> (recipient: Recipient)
    ensures
        recipient == (match *reply {
            Reply::Ready => Recipient::Setup,
            Reply::SetupFailed { .. } => Recipient::Setup,
            Reply::Exited { id, code, signal } => Recipient::Exit {
                id,
                status: ExitStatus { code, signal },
            },
            _ => Recipient::Request { id: reply.answers()->0 },
        }),
{
    match reply {
        Reply::Ready => Recipient::Setup,
        Reply::SetupFailed { .. } => Recipient::Setup,
        Reply::Exited { id, code, signal } => Recipient::Exit {
            id: *id,
            status: ExitStatus { code: *code, signal: *signal },
        },
        Reply::Spawned { id } => Recipient::Request { id: *id },
        Reply::SpawnFailed { id, .. } => Recipient::Request { id: *id },
        Reply::Opened { id } => Recipient::Request { id: *id },
        Reply::OpenFailed { id, .. } => Recipient::Request { id: *id },
        Reply::ShutdownRefused { id } => Recipient::Request { id: *id },
    }
}

/// What a reply says of the request it answers.
#[derive(Debug, PartialEq, Eq)]
pub enum Answer {
    Done,
    Failed { error: String },
    Errno { errno: i32 },
    Unexpected,
}

/// What init says of a command it was to start.
pub fn spawn_answer(reply: Reply) -> (answer: Answer)
    ensures
        match reply {
            Reply::Spawned { .. } => answer is Done,
            Reply::SpawnFailed { id, error } => answer matches Answer::Failed { error: said }
                && said@ == error@,
            _ => answer is Unexpected,
        },
{
    match reply {
        Reply::Spawned { .. } => Answer::Done,
        Reply::SpawnFailed { error, .. } => Answer::Failed { error },
        _ => Answer::Unexpected,
    }
}

/// What init says of a path it was to open, with so many descriptors.
pub fn open_answer(reply: &Reply, descriptors: usize) -> (answer: Answer)
    ensures
        match *reply {
            Reply::Opened { .. } => if descriptors > 0 {
                answer is Done
            } else {
                answer is Unexpected
            },
            Reply::OpenFailed { id, errno } => answer matches Answer::Errno { errno: said }
                && said == errno,
            _ => answer is Unexpected,
        },
{
    match reply {
        Reply::Opened { .. } => if descriptors > 0 {
            Answer::Done
        } else {
            Answer::Unexpected
        },
        Reply::OpenFailed { errno, .. } => Answer::Errno { errno: *errno },
        _ => Answer::Unexpected,
    }
}

/// What init says of setting its sandbox up.
pub fn setup_answer(reply: Reply) -> (answer: Answer)
    ensures
        match reply {
            Reply::Ready => answer is Done,
            Reply::SetupFailed { error } => answer matches Answer::Failed { error: said } && said@
                == error@,
            _ => answer is Unexpected,
        },
{
    match reply {
        Reply::Ready => Answer::Done,
        Reply::SetupFailed { error } => Answer::Failed { error },
        _ => Answer::Unexpected,
    }
}

// ---- Draining ----

/// What happens while a command's output is read.
#[derive(Clone, Copy, Debug, PartialEq, Eq, Structural)]
pub enum Heard {
    /// The command exited; `None` where its sandbox stopped.
    Exit(Option<ExitStatus>),
    Output,
    /// The output ended or cannot be read.
    End,
    /// Output was awaited long enough after the exit.
    Deadline,
}

/// What to do next.
#[derive(Clone, Copy, Debug, PartialEq, Eq, Structural)]
pub enum Next {
    /// Read on.
    Read,
    /// Read on, but only for a while.
    ReadBriefly,
    /// Hand the output over, and read on.
    Sink,
    /// Only the exit is awaited.
    AwaitExit,
    Done(ExitStatus),
}

/// Output is handed over until the command exits, then for a while longer. Background processes
/// it started may keep the pipe open indefinitely; they are not waited for.
#[derive(Clone, Copy, Debug, PartialEq, Eq, Structural)]
pub struct Drain {
    pub status: Option<ExitStatus>,
    pub ended: bool,
}

pub open spec fn status_of(exit: Option<ExitStatus>) -> ExitStatus {
    match exit {
        Some(status) => status,
        None => ExitStatus { code: None, signal: Some(9i32) },
    }
}

pub open spec fn drained(drain: Drain, heard: Heard) -> (Drain, Next) {
    match heard {
        Heard::Exit(exit) => match drain.status {
            Some(status) => (drain, Next::Done(status)),
            None => {
                let now = Drain { status: Some(status_of(exit)), ..drain };
                if drain.ended {
                    (now, Next::Done(status_of(exit)))
                } else {
                    (now, Next::ReadBriefly)
                }
            },
        },
        Heard::Output => (drain, Next::Sink),
        Heard::End => match drain.status {
            Some(status) => (Drain { ended: true, ..drain }, Next::Done(status)),
            None => (Drain { ended: true, ..drain }, Next::AwaitExit),
        },
        Heard::Deadline => match drain.status {
            Some(status) => (drain, Next::Done(status)),
            None => (drain, Next::Read),
        },
    }
}

impl Drain {
    pub fn new() -> (drain: Self)
        ensures
            drain == (Drain { status: None, ended: false }),
    {
        Drain { status: None, ended: false }
    }

    pub fn on(&mut self, heard: Heard) -> (next: Next)
        ensures
            (*final(self), next) == drained(*old(self), heard),
    {
        match heard {
            Heard::Exit(exit) => match self.status {
                Some(status) => Next::Done(status),
                None => {
                    let status = match exit {
                        Some(status) => status,
                        None => killed(),
                    };
                    self.status = Some(status);
                    if self.ended {
                        Next::Done(status)
                    } else {
                        Next::ReadBriefly
                    }
                },
            },
            Heard::Output => Next::Sink,
            Heard::End => {
                self.ended = true;
                match self.status {
                    Some(status) => Next::Done(status),
                    None => Next::AwaitExit,
                }
            },
            Heard::Deadline => match self.status {
                Some(status) => Next::Done(status),
                None => Next::Read,
            },
        }
    }
}

/// All output that is heard is handed over; reading goes on until the output ends or the time after
/// the exit is over; and a command whose sandbox stopped was killed.
pub proof fn law_output_is_read_to_its_end(drain: Drain, status: ExitStatus)
    ensures
        drained(drain, Heard::Output) == (drain, Next::Sink),
        drain.status is None ==> {
            &&& drained(drain, Heard::Exit(Some(status))).0.status == Some(status)
            &&& drained(drain, Heard::Exit(None)).0.status == Some(
                ExitStatus { code: None, signal: Some(9i32) },
            )
            &&& drained(drain, Heard::End) == (
                Drain { status: None, ended: true },
                Next::AwaitExit,
            )
            &&& drained(drain, Heard::Deadline) == (drain, Next::Read)
        },
        drain.status is None && !drain.ended ==> drained(drain, Heard::Exit(Some(status))) == (
            Drain { status: Some(status), ended: false },
            Next::ReadBriefly,
        ),
        drain.status is None && drain.ended ==> drained(drain, Heard::Exit(Some(status))).1
            == Next::Done(status),
        drain.status == Some(status) ==> drained(drain, Heard::End).1 == Next::Done(status)
            && drained(drain, Heard::Deadline).1 == Next::Done(status),
{
}

/// Draining ends only after the command exited, with the status it exited with.
pub proof fn law_draining_ends_with_the_exit(drain: Drain, heard: Heard)
    ensures
        drained(drain, heard).1 matches Next::Done(status) ==> drained(drain, heard).0.status
            == Some(status),
        drain.status is Some ==> drained(drain, heard).0.status == drain.status,
{
}

} // verus!
