//! Messages between the harness and a sandbox's init over a sequenced-packet socket. Each
//! message is one JSON packet; file descriptors ride along. Packets larger than
//! [`INLINE_LIMIT`] travel in a memory file so a huge command never hits socket limits.

use vstd::prelude::*;

verus! {

pub const INLINE_LIMIT: usize = 49152;

pub const MAX_FDS: usize = 4;

#[derive(Clone, Debug, PartialEq, Eq)]
pub struct Setup {
    pub rootfs: String,
    pub root_upper: String,
    pub root_work: String,
    pub mount_point: String,
    pub layers: Vec<LayerMount>,
    pub binds: Vec<BindMount>,
    pub hostname: String,
}

#[derive(Clone, Debug, PartialEq, Eq)]
pub struct LayerMount {
    pub lower: String,
    pub upper: String,
    pub work: String,
    pub target: String,
}

#[derive(Clone, Debug, PartialEq, Eq)]
pub struct BindMount {
    pub source: String,
    pub target: String,
    pub writable: bool,
}

/// How [`Request::Open`] opens a path inside the sandbox.
#[derive(Clone, Copy, Debug, PartialEq, Eq, Structural)]
pub enum OpenMode {
    Read,
    /// Create or truncate, optionally creating missing parent directories.
    Write { create_parents: bool },
    /// Read and write an existing file without truncating it.
    Update,
}

#[derive(Debug, PartialEq, Eq)]
pub enum Request {
    Setup(Setup),
    /// Runs `argv` with the passed descriptor as stdout and stderr, in a new session.
    Spawn { id: u64, argv: Vec<String>, cwd: String, env: Vec<(String, String)> },
    /// Kills the spawned command's whole process group.
    Kill { id: u64 },
    /// Opens a path as the sandbox sees it; the reply carries the descriptor.
    Open { id: u64, path: String, mode: OpenMode },
    /// Ends the sandbox. Without `force`, init refuses while other processes are alive.
    Shutdown { id: u64, force: bool },
}

#[derive(Debug, PartialEq, Eq)]
pub enum Reply {
    Ready,
    SetupFailed { error: String },
    Spawned { id: u64 },
    SpawnFailed { id: u64, error: String },
    Exited { id: u64, code: Option<i32>, signal: Option<i32> },
    Opened { id: u64 },
    OpenFailed { id: u64, errno: i32 },
    ShutdownRefused { id: u64 },
}

impl Reply {
    /// The request that a reply belongs to.
    pub open spec fn answers(self) -> Option<u64> {
        match self {
            Reply::Ready => None,
            Reply::SetupFailed { .. } => None,
            Reply::Spawned { id } => Some(id),
            Reply::SpawnFailed { id, .. } => Some(id),
            Reply::Exited { id, .. } => Some(id),
            Reply::Opened { id } => Some(id),
            Reply::OpenFailed { id, .. } => Some(id),
            Reply::ShutdownRefused { id } => Some(id),
        }
    }

    pub fn id(&self) -> (id: Option<u64>)
        ensures
            id == self.answers(),
    {
        match self {
            Reply::Ready => None,
            Reply::SetupFailed { .. } => None,
            Reply::Spawned { id } => Some(*id),
            Reply::SpawnFailed { id, .. } => Some(*id),
            Reply::Exited { id, .. } => Some(*id),
            Reply::Opened { id } => Some(*id),
            Reply::OpenFailed { id, .. } => Some(*id),
            Reply::ShutdownRefused { id } => Some(*id),
        }
    }
}

// ---- Packets ----

/// The packet that says: the message is in the memory file that rides along last.
pub open spec fn marker() -> Seq<u8> {
    seq![0u8, 0x6Du8, 0x65u8, 0x6Du8, 0x66u8, 0x64u8]
}

/// What goes over the socket for a message.
pub ghost struct Sent {
    pub packet: Seq<u8>,
    /// What the memory file holds that rides along last.
    pub file: Option<Seq<u8>>,
}

pub open spec fn sent(body: Seq<u8>) -> Sent {
    if body.len() <= INLINE_LIMIT {
        Sent { packet: body, file: None }
    } else {
        Sent { packet: marker(), file: Some(body) }
    }
}

/// What a packet means to its receiver.
pub ghost enum Received {
    /// The peer closed the socket.
    Closed,
    /// The message is in a memory file that did not come along.
    Incomplete,
    Message(Seq<u8>),
}

pub open spec fn received(message: Sent) -> Received {
    if message.packet.len() == 0 {
        Received::Closed
    } else if message.packet == marker() {
        match message.file {
            Some(body) => Received::Message(body),
            None => Received::Incomplete,
        }
    } else {
        Received::Message(message.packet)
    }
}

/// What was sent is what is received, for every message that is not empty and not itself the
/// marker, as no JSON is.
pub proof fn law_messages_arrive(body: Seq<u8>)
    requires
        body.len() > 0,
        body != marker(),
    ensures
        received(sent(body)) == Received::Message(body),
        sent(body).packet.len() <= INLINE_LIMIT,
{
}

/// A packet to send, and whether the message itself goes into a memory file.
#[derive(Clone, Debug, PartialEq, Eq)]
pub struct Packet {
    pub bytes: Vec<u8>,
    pub in_file: bool,
}

fn marker_bytes() -> (bytes: Vec<u8>)
    ensures
        bytes@ == marker(),
{
    let bytes: Vec<u8> = vec![0, 0x6D, 0x65, 0x6D, 0x66, 0x64];
    assert(bytes@ =~= marker());
    bytes
}

/// How a message is sent.
pub fn pack(body: &Vec<u8>) -> (packet: Packet)
    ensures
        packet.bytes@ == sent(body@).packet,
        packet.in_file == (sent(body@).file is Some),
{
    if body.len() <= INLINE_LIMIT {
        let mut bytes: Vec<u8> = Vec::new();
        bytes.extend_from_slice(body.as_slice());
        assert(bytes@ =~= body@);
        Packet { bytes, in_file: false }
    } else {
        Packet { bytes: marker_bytes(), in_file: true }
    }
}

/// Where a received message is.
#[derive(Clone, Copy, Debug, PartialEq, Eq, Structural)]
pub enum Place {
    Nowhere,
    /// In the packet.
    Packet,
    /// In the descriptor that came along last.
    LastDescriptor,
    /// In a descriptor, but none came along.
    Missing,
}

pub open spec fn place_of(packet: Seq<u8>, descriptors: nat) -> Place {
    if packet.len() == 0 {
        Place::Nowhere
    } else if packet == marker() {
        if descriptors == 0 {
            Place::Missing
        } else {
            Place::LastDescriptor
        }
    } else {
        Place::Packet
    }
}

/// A message is found where it was put: in the packet where it is short, and else in the descriptor
/// that came along last, and it is missed where that did not come.
pub proof fn law_a_message_is_found_where_it_was_put(body: Seq<u8>, descriptors: nat)
    requires
        body.len() > 0,
        body != marker(),
    ensures
        body.len() <= 49152 ==> sent(body).file is None && sent(body).packet == body && place_of(
            sent(body).packet,
            descriptors,
        ) == Place::Packet,
        body.len() > 49152 ==> sent(body).file == Some(body) && place_of(
            sent(body).packet,
            descriptors + 1,
        ) == Place::LastDescriptor && place_of(sent(body).packet, 0) == Place::Missing,
        place_of(Seq::empty(), descriptors) == Place::Nowhere,
        marker()[0] == 0,
{
}

/// Finds the message in a packet that came with some descriptors.
pub fn locate(packet: &[u8], descriptors: usize) -> (place: Place)
    ensures
        place == place_of(packet@, descriptors as nat),
{
    if packet.len() == 0 {
        return Place::Nowhere;
    }
    let wanted = marker_bytes();
    let mut same = packet.len() == wanted.len();
    let mut i: usize = 0;
    while same && i < wanted.len()
        invariant
            wanted@ == marker(),
            i <= wanted@.len(),
            same ==> packet@.len() == wanted@.len() && packet@.take(i as int) == wanted@.take(
                i as int,
            ),
            !same ==> packet@ != wanted@,
        decreases wanted@.len() - i,
    {
        if packet[i] != wanted[i] {
            same = false;
        } else {
            assert(packet@.take(i + 1) =~= packet@.take(i as int).push(packet@[i as int]));
            assert(wanted@.take(i + 1) =~= wanted@.take(i as int).push(wanted@[i as int]));
        }
        i += 1;
    }
    if same {
        assert(packet@.take(i as int) =~= packet@);
        assert(wanted@.take(i as int) =~= wanted@);
        if descriptors == 0 {
            Place::Missing
        } else {
            Place::LastDescriptor
        }
    } else {
        Place::Packet
    }
}

} // verus!
