//! Agent sandboxes. A sandbox is mostly directories on disk: an overlay upper layer for the
//! image and one per layer. It becomes live only while something runs in it: the first request
//! starts an init process in fresh namespaces, and the sandbox hibernates again once it has
//! been idle for a while with no processes left.

pub mod init;
pub mod launch;
pub mod live;
pub mod proto;
pub mod seccomp;

pub use crate::cgroup::{Cores, Limits};
pub use crate::sandbox::proto::OpenMode;

use crate::cgroup;
use crate::paths;
use crate::paths::{equal, join};
use crate::sandbox::proto::{BindMount, LayerMount, Setup};
use crate::strings;
use crate::strings::{chars_of, number, same, text_from_utf8};
use vstd::prelude::*;

verus! {

// ---- Environments ----

/// The names and values of an environment.
pub open spec fn pairs(env: Seq<(String, String)>) -> Seq<(Seq<char>, Seq<char>)> {
    env.map_values(|pair: (String, String)| (pair.0@, pair.1@))
}

/// The value of the first variable with this name.
pub open spec fn value_of(env: Seq<(Seq<char>, Seq<char>)>, name: Seq<char>, from: int) -> Option<
    Seq<char>,
>
    decreases env.len() - from,
{
    if from < 0 || from >= env.len() {
        None
    } else if env[from].0 == name {
        Some(env[from].1)
    } else {
        value_of(env, name, from + 1)
    }
}

/// Of variables with the same name the first counts, and a name that no variable has has no value.
pub proof fn law_the_first_variable_counts(
    before: Seq<(Seq<char>, Seq<char>)>,
    name: Seq<char>,
    value: Seq<char>,
    after: Seq<(Seq<char>, Seq<char>)>,
)
    requires
        forall|i: int| #![trigger before[i]] 0 <= i < before.len() ==> before[i].0 != name,
    ensures
        value_of(before + seq![(name, value)] + after, name, 0) == Some(value),
        value_of(before, name, 0) is None,
{
    let all = before + seq![(name, value)] + after;
    lemma_no_value(before, before, name, 0);
    lemma_no_value(all, before, name, 0);
    assert(all[before.len() as int] == (name, value));
}

proof fn lemma_no_value(
    env: Seq<(Seq<char>, Seq<char>)>,
    before: Seq<(Seq<char>, Seq<char>)>,
    name: Seq<char>,
    from: int,
)
    requires
        0 <= from <= before.len() <= env.len(),
        forall|i: int| #![trigger before[i]]
            0 <= i < before.len() ==> before[i] == env[i] && before[i].0 != name,
    ensures
        value_of(env, name, from) == value_of(env, name, before.len() as int),
    decreases before.len() - from,
{
    if from < before.len() {
        assert(before[from] == env[from]);
        lemma_no_value(env, before, name, from + 1);
    }
}

pub fn variable<'a>(env: &'a Vec<(String, String)>, name: &str) -> (value: Option<&'a str>)
    ensures
        match value {
            Some(value) => value_of(pairs(env@), name@, 0) == Some(value@),
            None => value_of(pairs(env@), name@, 0) is None,
        },
{
    let ghost all = pairs(env@);
    let mut i: usize = 0;
    while i < env.len()
        invariant
            i <= env@.len(),
            all == pairs(env@),
            value_of(all, name@, 0) == value_of(all, name@, i as int),
        decreases env@.len() - i,
    {
        assert(all[i as int] == (env@[i as int].0@, env@[i as int].1@));
        if same(env[i].0.as_str(), name) {
            return Some(env[i].1.as_str());
        }
        i += 1;
    }
    None
}

fn same_pairs(a: &Vec<(String, String)>, b: &Vec<(String, String)>) -> (equal: bool)
    ensures
        equal == (pairs(a@) == pairs(b@)),
{
    let ghost left = pairs(a@);
    let ghost right = pairs(b@);
    assert(left.len() == a@.len() && right.len() == b@.len());
    if a.len() != b.len() {
        return false;
    }
    let mut i: usize = 0;
    while i < a.len()
        invariant
            i <= a@.len() == b@.len(),
            left == pairs(a@),
            right == pairs(b@),
            forall|k: int| #![trigger left[k]] 0 <= k < i ==> left[k] == right[k],
        decreases a@.len() - i,
    {
        if !same(a[i].0.as_str(), b[i].0.as_str()) || !same(a[i].1.as_str(), b[i].1.as_str()) {
            assert(left[i as int] != right[i as int]);
            return false;
        }
        i += 1;
    }
    assert(left =~= right);
    true
}

// ---- Specs ----

/// What an agent's machine looks like.
#[derive(Clone, Debug, PartialEq)]
pub struct SandboxSpec {
    /// Read-only image root, shared by every sandbox that uses it.
    pub rootfs: String,
    /// Copy-on-write directories mounted over the image, such as a project at `/workspace`.
    pub layers: Vec<Layer>,
    /// Live host directories, such as records other agents write.
    pub binds: Vec<Bind>,
    pub limits: Limits,
    pub hostname: String,
    /// Working directory for commands.
    pub cwd: String,
    pub env: Vec<(String, String)>,
}

/// `lower` must not change while a sandbox using it is live; overlayfs requires it.
#[derive(Clone, Debug, PartialEq, Eq)]
pub struct Layer {
    pub lower: String,
    pub target: String,
}

#[derive(Clone, Debug, PartialEq, Eq)]
pub struct Bind {
    pub source: String,
    pub target: String,
    pub writable: bool,
}

/// The environment that commands have where none is given.
pub open spec fn usual_env() -> Seq<(Seq<char>, Seq<char>)> {
    seq![
        ("PATH"@, "/usr/local/sbin:/usr/local/bin:/usr/sbin:/usr/bin:/sbin:/bin"@),
        ("HOME"@, "/root"@),
        ("LANG"@, "C.UTF-8"@),
        ("TERM"@, "dumb"@),
    ]
}

/// Where no environment is given, commands find the usual programs, a home, a language and a plain
/// terminal.
pub proof fn law_the_usual_environment()
    ensures
        value_of(usual_env(), "PATH"@, 0) == Some(
            "/usr/local/sbin:/usr/local/bin:/usr/sbin:/usr/bin:/sbin:/bin"@,
        ),
        value_of(usual_env(), "HOME"@, 0) == Some("/root"@),
        value_of(usual_env(), "LANG"@, 0) == Some("C.UTF-8"@),
        value_of(usual_env(), "TERM"@, 0) == Some("dumb"@),
        usual_env().len() == 4,
{
    reveal_strlit("PATH");
    reveal_strlit("HOME");
    reveal_strlit("LANG");
    reveal_strlit("TERM");
    assert("PATH"@[0] == 'P' && "HOME"@[0] == 'H' && "LANG"@[0] == 'L' && "TERM"@[0] == 'T');
    reveal_with_fuel(value_of, 5);
    let env = usual_env();
    assert(env[0].0 == "PATH"@);
    assert(env[1].0 == "HOME"@);
    assert(env[2].0 == "LANG"@);
    assert(env[3].0 == "TERM"@);
}

/// Whether two specs ask for the same machine.
pub open spec fn same_machine(a: SandboxSpec, b: SandboxSpec) -> bool {
    &&& paths::same_path(a.rootfs@, b.rootfs@)
    &&& a.layers@.len() == b.layers@.len()
    &&& forall|i: int| #![trigger a.layers@[i]]
        0 <= i < a.layers@.len() ==> paths::same_path(a.layers@[i].lower@, b.layers@[i].lower@)
            && a.layers@[i].target@ == b.layers@[i].target@
    &&& a.binds@.len() == b.binds@.len()
    &&& forall|i: int| #![trigger a.binds@[i]]
        0 <= i < a.binds@.len() ==> paths::same_path(a.binds@[i].source@, b.binds@[i].source@)
            && a.binds@[i].target@ == b.binds@[i].target@ && a.binds@[i].writable
            == b.binds@[i].writable
    &&& cgroup::same_limits(a.limits, b.limits)
    &&& a.hostname@ == b.hostname@
    &&& a.cwd@ == b.cwd@
    &&& pairs(a.env@) == pairs(b.env@)
}

/// Two specs that ask for the same machine have everything in common: paths that name the same
/// place, and everything else letter for letter. Which is asked first does not matter.
pub proof fn law_the_same_machine_has_everything_in_common(a: SandboxSpec, b: SandboxSpec)
    ensures
        same_machine(a, b) == same_machine(b, a),
        same_machine(a, b) ==> {
            &&& paths::components(a.rootfs@) == paths::components(b.rootfs@)
            &&& a.layers@.len() == b.layers@.len() && a.binds@.len() == b.binds@.len()
            &&& a.limits.memory_bytes == b.limits.memory_bytes && a.limits.pids == b.limits.pids
            &&& (a.limits.cpus is Some) == (b.limits.cpus is Some)
            &&& a.hostname@ == b.hostname@ && a.cwd@ == b.cwd@
            &&& pairs(a.env@) == pairs(b.env@)
            &&& forall|i: int| #![trigger a.binds@[i]]
                0 <= i < a.binds@.len() ==> a.binds@[i].writable == b.binds@[i].writable
                    && a.binds@[i].target@ == b.binds@[i].target@ && paths::components(
                    a.binds@[i].source@,
                ) == paths::components(b.binds@[i].source@)
            &&& forall|i: int| #![trigger a.layers@[i]]
                0 <= i < a.layers@.len() ==> a.layers@[i].target@ == b.layers@[i].target@
                    && paths::components(a.layers@[i].lower@) == paths::components(
                    b.layers@[i].lower@,
                )
        },
        (a.limits.cpus matches Some(cores) ==> cgroup::same_float(cores.bits, cores.bits))
            ==> same_machine(a, a),
{
    lemma_same_machine_again(a, b);
    lemma_same_machine_again(b, a);
}

proof fn lemma_same_machine_again(a: SandboxSpec, b: SandboxSpec)
    ensures
        same_machine(a, b) ==> same_machine(b, a),
{
    if same_machine(a, b) {
        assert forall|i: int| #![trigger b.layers@[i]] 0 <= i < b.layers@.len() implies
            paths::same_path(b.layers@[i].lower@, a.layers@[i].lower@) && b.layers@[i].target@
            == a.layers@[i].target@ by {
            assert(a.layers@[i].target@ == b.layers@[i].target@);
        }
        assert forall|i: int| #![trigger b.binds@[i]] 0 <= i < b.binds@.len() implies
            paths::same_path(b.binds@[i].source@, a.binds@[i].source@) && b.binds@[i].target@
            == a.binds@[i].target@ && b.binds@[i].writable == a.binds@[i].writable by {
            assert(a.binds@[i].target@ == b.binds@[i].target@);
        }
    }
}

impl SandboxSpec {
    pub fn default_env() -> (env: Vec<(String, String)>)
        ensures
            pairs(env@) == usual_env(),
    {
        let env: Vec<(String, String)> = vec![
            (
                "PATH".to_owned(),
                "/usr/local/sbin:/usr/local/bin:/usr/sbin:/usr/bin:/sbin:/bin".to_owned(),
            ),
            ("HOME".to_owned(), "/root".to_owned()),
            ("LANG".to_owned(), "C.UTF-8".to_owned()),
            ("TERM".to_owned(), "dumb".to_owned()),
        ];
        assert(pairs(env@) =~= usual_env());
        env
    }

    pub fn home(&self) -> (home: &str)
        ensures
            home@ == (match value_of(pairs(self.env@), "HOME"@, 0) {
                Some(home) => home,
                None => "/root"@,
            }),
    {
        match variable(&self.env, "HOME") {
            Some(home) => home,
            None => "/root",
        }
    }

    /// Whether two specs ask for the same machine.
    pub fn same_as(&self, other: &SandboxSpec) -> (equal: bool)
        ensures
            equal == same_machine(*self, *other),
    {
        if !equal(self.rootfs.as_str(), other.rootfs.as_str()) || self.layers.len()
            != other.layers.len() || self.binds.len() != other.binds.len() || !self.limits.same_as(
            &other.limits,
        ) || !same(self.hostname.as_str(), other.hostname.as_str()) || !same(
            self.cwd.as_str(),
            other.cwd.as_str(),
        ) || !same_pairs(&self.env, &other.env) {
            return false;
        }
        let mut i: usize = 0;
        while i < self.layers.len()
            invariant
                i <= self.layers@.len() == other.layers@.len(),
                forall|k: int| #![trigger self.layers@[k]]
                    0 <= k < i ==> paths::same_path(
                        self.layers@[k].lower@,
                        other.layers@[k].lower@,
                    ) && self.layers@[k].target@ == other.layers@[k].target@,
            decreases self.layers@.len() - i,
        {
            if !equal(self.layers[i].lower.as_str(), other.layers[i].lower.as_str()) || !same(
                self.layers[i].target.as_str(),
                other.layers[i].target.as_str(),
            ) {
                assert(self.layers@[i as int].target@.len() >= 0);
                return false;
            }
            i += 1;
        }
        let mut j: usize = 0;
        while j < self.binds.len()
            invariant
                j <= self.binds@.len() == other.binds@.len(),
                forall|k: int| #![trigger self.binds@[k]]
                    0 <= k < j ==> paths::same_path(
                        self.binds@[k].source@,
                        other.binds@[k].source@,
                    ) && self.binds@[k].target@ == other.binds@[k].target@
                        && self.binds@[k].writable == other.binds@[k].writable,
            decreases self.binds@.len() - j,
        {
            if !equal(self.binds[j].source.as_str(), other.binds[j].source.as_str()) || !same(
                self.binds[j].target.as_str(),
                other.binds[j].target.as_str(),
            ) || self.binds[j].writable != other.binds[j].writable {
                assert(self.binds@[j as int].target@.len() >= 0);
                return false;
            }
            j += 1;
        }
        true
    }
}

#[derive(Clone, Copy, Debug, PartialEq, Eq, Structural)]
pub struct ExitStatus {
    pub code: Option<i32>,
    pub signal: Option<i32>,
}

impl ExitStatus {
    /// An exit code, or a signal number that a shell's exit code can show.
    pub open spec fn is_usual(self) -> bool {
        self.code is None ==> (self.signal matches Some(signal) ==> signal <= i32::MAX - 128)
    }

    /// The exit code by the shell's convention.
    pub open spec fn shell_code(self) -> int {
        match self.code {
            Some(code) => code as int,
            None => match self.signal {
                Some(signal) => 128 + signal,
                None => 128,
            },
        }
    }

    /// The shell convention: the exit code, or 128 plus the terminating signal.
    pub fn code(&self) -> (code: i32)
        requires
            self.is_usual(),
        ensures
            code == self.shell_code(),
    {
        match self.code {
            Some(code) => code,
            None => match self.signal {
                Some(signal) => 128 + signal,
                None => 128,
            },
        }
    }

    pub fn success(&self) -> (success: bool)
        ensures
            success == (self.code == Some(0i32)),
    {
        match self.code {
            Some(code) => code == 0,
            None => false,
        }
    }
}

/// The shell's convention: an exit code as it is, and a signal above it.
pub proof fn law_shells_show_signals_above_codes(code: i32, signal: i32)
    ensures
        (ExitStatus { code: Some(code), signal: None }).shell_code() == code,
        (ExitStatus { code: None, signal: Some(signal) }).shell_code() == signal + 128,
{
}

/// What is taken for the status of a command whose sandbox stopped: killed.
pub fn killed() -> (status: ExitStatus)
    ensures
        status == (ExitStatus { code: None, signal: Some(9i32) }),
{
    ExitStatus { code: None, signal: Some(9) }
}

/// Combined stdout and stderr of a finished command.
#[derive(Clone, Debug)]
pub struct Output {
    pub bytes: Vec<u8>,
    pub status: ExitStatus,
}

impl Output {
    pub fn text(&self) -> (text: String)
        ensures
            text@ == strings::lossy(self.bytes@),
    {
        text_from_utf8(&self.bytes)
    }
}

// ---- Sandboxes ----

pub open spec fn may_be_in_id(c: char) -> bool {
    'a' <= c <= 'z' || 'A' <= c <= 'Z' || '0' <= c <= '9' || c == '_' || c == '-'
}

/// Sandbox ids are also names of directories.
pub open spec fn is_id(id: Seq<char>) -> bool {
    1 <= id.len() <= 64 && forall|i: int| #![trigger id[i]]
        0 <= i < id.len() ==> may_be_in_id(id[i])
}

pub fn valid_id(id: &str) -> (valid: bool)
    ensures
        valid == is_id(id@),
{
    let chars = chars_of(id);
    if chars.len() < 1 || chars.len() > 64 {
        return false;
    }
    let mut i: usize = 0;
    while i < chars.len()
        invariant
            i <= chars@.len(),
            chars@ == id@,
            forall|k: int| #![trigger id@[k]] 0 <= k < i ==> may_be_in_id(id@[k]),
        decreases chars@.len() - i,
    {
        let c = chars[i];
        if !(('a' <= c && c <= 'z') || ('A' <= c && c <= 'Z') || ('0' <= c && c <= '9') || c == '_' || c
            == '-') {
            assert(!may_be_in_id(id@[i as int]));
            return false;
        }
        i += 1;
    }
    true
}

/// A valid id names a directory of its own: it holds no slash and is neither `.` nor `..`.
pub proof fn law_ids_are_names(id: Seq<char>)
    requires
        is_id(id),
    ensures
        crate::tools::path::is_name(id),
{
    if id.contains('/') {
        let i = choose|i: int| 0 <= i < id.len() && id[i] == '/';
        assert(may_be_in_id(id[i]));
    }
    assert(may_be_in_id(id[0]));
    assert(id[0] != '.');
}

/// Ids are one to sixty-four letters, digits, underscores and hyphens.
pub proof fn law_ids_are_short_and_plain(id: Seq<char>, c: char)
    ensures
        is_id(id) ==> 0 < id.len() < 65,
        is_id(id) && id.contains(c) ==> {
            ||| 65 <= c as u32 <= 90
            ||| 97 <= c as u32 <= 122
            ||| 48 <= c as u32 <= 57
            ||| c as u32 == 95
            ||| c as u32 == 45
        },
        0 < id.len() < 64 && is_id(id) && (65 <= c as u32 <= 90 || 97 <= c as u32 <= 122 || 48
            <= c as u32 <= 57 || c as u32 == 95 || c as u32 == 45) ==> is_id(id.push(c)),
        may_be_in_id(c) ==> is_id(seq![c]),
{
    if is_id(id) && id.contains(c) {
        let i = choose|i: int| 0 <= i < id.len() && id[i] == c;
        assert(may_be_in_id(id[i]));
    }
    let longer = id.push(c);
    if is_id(id) && may_be_in_id(c) {
        assert forall|i: int| #![trigger longer[i]] 0 <= i < longer.len() implies may_be_in_id(
            longer[i],
        ) by {
            if i < id.len() {
                assert(longer[i] == id[i]);
            }
        }
    }
}

/// A text as Rust's debug format quotes it.
pub uninterp spec fn quoted(text: Seq<char>) -> Seq<char>;

/// `str`'s debug format: the text in quotes, with what needs it escaped. Nothing is said here of
/// which characters are escaped, nor how.
#[verifier::external_body]
fn quote(text: &str) -> (quoted_text: String)
    ensures
        quoted_text@ == quoted(text@),
{
    format!("{text:?}")
}

/// What a request for a sandbox gets.
#[derive(Debug, PartialEq, Eq)]
pub enum Choice {
    /// The one that is open.
    Open,
    /// A new one in its place.
    New,
}

pub open spec fn id_error(shown: Seq<char>) -> Seq<char> {
    "sandbox ids are 1-64 of [A-Za-z0-9_-]: "@ + shown
}

/// A live sandbox keeps its spec until it hibernates. `open` is the spec of an open sandbox with
/// this id, and whether it is live.
pub fn choose_sandbox(id: &str, spec: &SandboxSpec, open: Option<(&SandboxSpec, bool)>) -> (result:
    Result<Choice, String>)
    ensures
        if !is_id(id@) {
            result matches Err(error) && error@ == id_error(quoted(id@))
        } else {
            match open {
                None => result == Ok::<Choice, String>(Choice::New),
                Some((existing, live)) => if same_machine(*existing, *spec) {
                    result == Ok::<Choice, String>(Choice::Open)
                } else if live {
                    result matches Err(error) && error@ == "sandbox "@ + id@
                        + " is live with a different spec"@
                } else {
                    result == Ok::<Choice, String>(Choice::New)
                },
            }
        },
{
    if !valid_id(id) {
        let mut error = "sandbox ids are 1-64 of [A-Za-z0-9_-]: ".to_owned();
        error.append(quote(id).as_str());
        return Err(error);
    }
    match open {
        Some((existing, live)) => {
            if existing.same_as(spec) {
                return Ok(Choice::Open);
            }
            if live {
                let mut error = "sandbox ".to_owned();
                error.append(id);
                error.append(" is live with a different spec");
                return Err(error);
            }
            Ok(Choice::New)
        },
        None => Ok(Choice::New),
    }
}

/// Whether a sandbox's filesystem may be deleted.
pub fn check_removal(id: &str) -> (result: Result<(), String>)
    ensures
        is_id(id@) ==> result is Ok,
        !is_id(id@) ==> (result matches Err(error) && error@ == "invalid sandbox id "@ + quoted(
            id@,
        )),
{
    if valid_id(id) {
        Ok(())
    } else {
        let mut error = "invalid sandbox id ".to_owned();
        error.append(quote(id).as_str());
        Err(error)
    }
}

// ---- Setting up ----

/// Where the writes to layer `index` accumulate, and what overlayfs needs beside it.
pub open spec fn layer_dir(dir: Seq<char>, index: nat) -> Seq<char> {
    paths::joined(paths::joined(dir, "layers"@), strings::decimal(index))
}

pub open spec fn is_layer_mount(mount: LayerMount, layer: Layer, dir: Seq<char>, index: nat) -> bool {
    &&& mount.lower@ == layer.lower@
    &&& mount.upper@ == paths::joined(layer_dir(dir, index), "upper"@)
    &&& mount.work@ == paths::joined(layer_dir(dir, index), "work"@)
    &&& mount.target@ == layer.target@
}

pub open spec fn is_bind_mount(mount: BindMount, bind: Bind) -> bool {
    mount.source@ == bind.source@ && mount.target@ == bind.target@ && mount.writable
        == bind.writable
}

/// Whether `setup` is what a sandbox's init is told to set up.
pub open spec fn is_setup(setup: Setup, spec: SandboxSpec, id: Seq<char>, dir: Seq<char>) -> bool {
    &&& setup.rootfs@ == spec.rootfs@
    &&& setup.root_upper@ == paths::joined(dir, "root/upper"@)
    &&& setup.root_work@ == paths::joined(dir, "root/work"@)
    &&& setup.mount_point@ == paths::joined(dir, "mnt"@)
    &&& setup.layers@.len() == spec.layers@.len()
    &&& forall|i: int| #![trigger setup.layers@[i]]
        0 <= i < setup.layers@.len() ==> is_layer_mount(
            setup.layers@[i],
            spec.layers@[i],
            dir,
            i as nat,
        )
    &&& setup.binds@.len() == spec.binds@.len()
    &&& forall|i: int| #![trigger setup.binds@[i]]
        0 <= i < setup.binds@.len() ==> is_bind_mount(setup.binds@[i], spec.binds@[i])
    &&& setup.hostname@ == if spec.hostname@.len() == 0 {
        id
    } else {
        spec.hostname@
    }
}

/// Everything that a sandbox writes stays in its own directory, the root and each layer in a place
/// of its own; and what the sandbox is told names what its spec names.
pub proof fn law_writes_are_kept_apart(
    setup: Setup,
    spec: SandboxSpec,
    id: Seq<char>,
    dir: Seq<char>,
    i: int,
    j: int,
)
    requires
        is_setup(setup, spec, id, dir),
        dir.len() > 0 && dir.last() != '/',
        0 <= i < spec.layers@.len(),
        0 <= j < spec.layers@.len(),
    ensures
        setup.rootfs@ == spec.rootfs@,
        setup.root_upper@ == dir + "/root/upper"@,
        setup.root_work@ == dir + "/root/work"@,
        setup.mount_point@ == dir + "/mnt"@,
        setup.hostname@ == if spec.hostname@.len() == 0 {
            id
        } else {
            spec.hostname@
        },
        setup.layers@[i].lower@ == spec.layers@[i].lower@,
        setup.layers@[i].target@ == spec.layers@[i].target@,
        setup.layers@[i].upper@ == dir + "/layers/"@ + strings::decimal(i as nat) + "/upper"@,
        setup.layers@[i].work@ == dir + "/layers/"@ + strings::decimal(i as nat) + "/work"@,
        i != j ==> setup.layers@[i].upper@ != setup.layers@[j].upper@ && setup.layers@[i].work@
            != setup.layers@[j].work@,
{
    lemma_layer_paths(setup.layers@[i], spec.layers@[i], dir, i as nat);
    lemma_layer_paths(setup.layers@[j], spec.layers@[j], dir, j as nat);
    lemma_fixed_paths(dir);
    strings::law_decimal_writes_the_number(i as nat);
    strings::law_decimal_writes_the_number(j as nat);
    let a = strings::decimal(i as nat);
    let b = strings::decimal(j as nat);
    if setup.layers@[i].upper@ == setup.layers@[j].upper@ {
        lemma_same_middle(dir + "/layers/"@, a, b, "/upper"@);
    }
    if setup.layers@[i].work@ == setup.layers@[j].work@ {
        lemma_same_middle(dir + "/layers/"@, a, b, "/work"@);
    }
}

proof fn lemma_same_middle(start: Seq<char>, a: Seq<char>, b: Seq<char>, end: Seq<char>)
    requires
        start + a + end == start + b + end,
    ensures
        a == b,
{
    let from = start.len() as int;
    let one = start + a + end;
    let other = start + b + end;
    assert(one.len() == start.len() + a.len() + end.len());
    assert(other.len() == start.len() + b.len() + end.len());
    assert forall|k: int| 0 <= k < a.len() implies a[k] == b[k] by {
        assert(one[from + k] == a[k]);
        assert(other[from + k] == b[k]);
    }
    assert(a =~= b);
}

/// What a directory of a sandbox is called.
proof fn lemma_fixed_paths(dir: Seq<char>)
    requires
        dir.len() > 0 && dir.last() != '/',
    ensures
        paths::joined(dir, "root/upper"@) == dir + "/root/upper"@,
        paths::joined(dir, "root/work"@) == dir + "/root/work"@,
        paths::joined(dir, "mnt"@) == dir + "/mnt"@,
{
    reveal_strlit("root/upper");
    reveal_strlit("root/work");
    reveal_strlit("mnt");
    reveal_strlit("/root/upper");
    reveal_strlit("/root/work");
    reveal_strlit("/mnt");
    assert(paths::joined(dir, "root/upper"@) =~= dir + "/root/upper"@);
    assert(paths::joined(dir, "root/work"@) =~= dir + "/root/work"@);
    assert(paths::joined(dir, "mnt"@) =~= dir + "/mnt"@);
}

proof fn lemma_layer_paths(mount: LayerMount, layer: Layer, dir: Seq<char>, index: nat)
    requires
        is_layer_mount(mount, layer, dir, index),
        dir.len() > 0 && dir.last() != '/',
    ensures
        mount.upper@ == dir + "/layers/"@ + strings::decimal(index) + "/upper"@,
        mount.work@ == dir + "/layers/"@ + strings::decimal(index) + "/work"@,
{
    let digits = strings::decimal(index);
    strings::law_decimal_writes_the_number(index);
    assert(strings::is_digit(digits[0]));
    assert(strings::is_digit(digits[digits.len() - 1]));
    assert(digits.last() != '/');
    reveal_strlit("layers");
    reveal_strlit("/layers/");
    reveal_strlit("upper");
    reveal_strlit("/upper");
    reveal_strlit("work");
    reveal_strlit("/work");
    let layers = paths::joined(dir, "layers"@);
    assert(layers.last() == 's');
    let own = layer_dir(dir, index);
    assert(own =~= dir + "/layers/"@ + digits);
    assert(own.last() == digits.last());
    assert(mount.upper@ =~= dir + "/layers/"@ + digits + "/upper"@);
    assert(mount.work@ =~= dir + "/layers/"@ + digits + "/work"@);
}

/// A sandbox on disk.
#[derive(Clone, Debug)]
pub struct Sandbox {
    pub id: String,
    pub dir: String,
    pub spec: SandboxSpec,
}

impl Sandbox {
    pub fn id(&self) -> (id: &str)
        ensures
            id@ == self.id@,
    {
        self.id.as_str()
    }

    pub fn spec(&self) -> (spec: &SandboxSpec)
        ensures
            *spec == self.spec,
    {
        &self.spec
    }

    fn layer(&self, index: usize) -> (dir: String)
        ensures
            dir@ == layer_dir(self.dir@, index as nat),
    {
        let layers = join(self.dir.as_str(), "layers");
        join(layers.as_str(), number(index as u128).as_str())
    }

    /// Where writes to `spec.layers[index]` accumulate.
    pub fn layer_upper(&self, index: usize) -> (dir: String)
        ensures
            dir@ == paths::joined(layer_dir(self.dir@, index as nat), "upper"@),
    {
        join(self.layer(index).as_str(), "upper")
    }

    /// What the sandbox's init is told to set up.
    pub fn prepare(&self) -> (setup: Setup)
        ensures
            is_setup(setup, self.spec, self.id@, self.dir@),
    {
        let mut layers: Vec<LayerMount> = Vec::new();
        let mut i: usize = 0;
        while i < self.spec.layers.len()
            invariant
                i <= self.spec.layers@.len(),
                layers@.len() == i,
                forall|k: int| #![trigger layers@[k]]
                    0 <= k < i ==> is_layer_mount(
                        layers@[k],
                        self.spec.layers@[k],
                        self.dir@,
                        k as nat,
                    ),
            decreases self.spec.layers@.len() - i,
        {
            let dir = self.layer(i);
            layers.push(
                LayerMount {
                    lower: self.spec.layers[i].lower.clone(),
                    upper: join(dir.as_str(), "upper"),
                    work: join(dir.as_str(), "work"),
                    target: self.spec.layers[i].target.clone(),
                },
            );
            i += 1;
        }
        let mut binds: Vec<BindMount> = Vec::new();
        let mut j: usize = 0;
        while j < self.spec.binds.len()
            invariant
                j <= self.spec.binds@.len(),
                binds@.len() == j,
                forall|k: int| #![trigger binds@[k]]
                    0 <= k < j ==> is_bind_mount(binds@[k], self.spec.binds@[k]),
            decreases self.spec.binds@.len() - j,
        {
            binds.push(
                BindMount {
                    source: self.spec.binds[j].source.clone(),
                    target: self.spec.binds[j].target.clone(),
                    writable: self.spec.binds[j].writable,
                },
            );
            j += 1;
        }
        let hostname = if self.spec.hostname.as_str().is_empty() {
            self.id.clone()
        } else {
            self.spec.hostname.clone()
        };
        Setup {
            rootfs: self.spec.rootfs.clone(),
            root_upper: join(self.dir.as_str(), "root/upper"),
            root_work: join(self.dir.as_str(), "root/work"),
            mount_point: join(self.dir.as_str(), "mnt"),
            layers,
            binds,
            hostname,
        }
    }
}

/// The directories of layers, in the order in which they are made.
pub open spec fn layer_dirs(layers: Seq<LayerMount>) -> Seq<Seq<char>>
    decreases layers.len(),
{
    if layers.len() == 0 {
        Seq::empty()
    } else {
        layer_dirs(layers.drop_last()).push(layers.last().upper@).push(layers.last().work@)
    }
}

/// The directories that have to exist before a sandbox starts.
pub open spec fn setup_dirs(setup: Setup) -> Seq<Seq<char>> {
    layer_dirs(setup.layers@).push(setup.root_upper@).push(setup.root_work@).push(
        setup.mount_point@,
    )
}

/// Every directory that a mount of a sandbox needs is made before it starts, and no other.
pub proof fn law_every_directory_is_made(setup: Setup)
    ensures
        ({
            let dirs = setup_dirs(setup);
            &&& dirs.len() == 2 * setup.layers@.len() + 3
            &&& dirs.contains(setup.root_upper@) && dirs.contains(setup.root_work@)
                && dirs.contains(setup.mount_point@)
            &&& forall|i: int| #![trigger setup.layers@[i]]
                0 <= i < setup.layers@.len() ==> dirs.contains(setup.layers@[i].upper@)
                    && dirs.contains(setup.layers@[i].work@)
        }),
{
    let dirs = setup_dirs(setup);
    let layers = setup.layers@;
    lemma_layer_dirs(layers);
    let count = 2 * layers.len() as int;
    assert(dirs[count] == setup.root_upper@);
    assert(dirs[count + 1] == setup.root_work@);
    assert(dirs[count + 2] == setup.mount_point@);
    assert forall|i: int| #![trigger setup.layers@[i]] 0 <= i < setup.layers@.len() implies
        dirs.contains(setup.layers@[i].upper@) && dirs.contains(setup.layers@[i].work@) by {
        assert(dirs[2 * i] == layers[i].upper@);
        assert(dirs[2 * i + 1] == layers[i].work@);
    }
}

proof fn lemma_layer_dirs(layers: Seq<LayerMount>)
    ensures
        layer_dirs(layers).len() == 2 * layers.len(),
        forall|i: int| #![trigger layers[i]]
            0 <= i < layers.len() ==> layer_dirs(layers)[2 * i] == layers[i].upper@ && layer_dirs(
                layers,
            )[2 * i + 1] == layers[i].work@,
    decreases layers.len(),
{
    if layers.len() > 0 {
        let rest = layers.drop_last();
        lemma_layer_dirs(rest);
        assert forall|i: int| #![trigger layers[i]] 0 <= i < layers.len() implies layer_dirs(
            layers,
        )[2 * i] == layers[i].upper@ && layer_dirs(layers)[2 * i + 1] == layers[i].work@ by {
            if i < rest.len() {
                assert(rest[i] == layers[i]);
            }
        }
    }
}

pub fn directories(setup: &Setup) -> (dirs: Vec<String>)
    ensures
        strings::texts(dirs@) == setup_dirs(*setup),
{
    let mut dirs: Vec<String> = Vec::new();
    let ghost layers = setup.layers@;
    let mut i: usize = 0;
    assert(strings::texts(dirs@) =~= layer_dirs(layers.take(0)));
    while i < setup.layers.len()
        invariant
            i <= setup.layers@.len(),
            layers == setup.layers@,
            strings::texts(dirs@) == layer_dirs(layers.take(i as int)),
        decreases setup.layers@.len() - i,
    {
        let ghost before = strings::texts(dirs@);
        let ghost now = layers.take(i + 1);
        assert(now.drop_last() =~= layers.take(i as int));
        dirs.push(setup.layers[i].upper.clone());
        dirs.push(setup.layers[i].work.clone());
        assert(strings::texts(dirs@) =~= before.push(layers[i as int].upper@).push(
            layers[i as int].work@,
        ));
        i += 1;
    }
    assert(layers.take(i as int) =~= layers);
    let ghost before = strings::texts(dirs@);
    dirs.push(setup.root_upper.clone());
    dirs.push(setup.root_work.clone());
    dirs.push(setup.mount_point.clone());
    assert(strings::texts(dirs@) =~= before.push(setup.root_upper@).push(setup.root_work@).push(
        setup.mount_point@,
    ));
    dirs
}

} // verus!
