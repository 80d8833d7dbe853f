//! PID 1 of an agent sandbox. The harness execs its own binary into fresh user, mount, PID,
//! network, IPC, UTS and cgroup namespaces; init then builds the root filesystem, drops to a
//! container's usual capabilities under a syscall filter, and serves requests until the harness
//! closes the socket or asks it to stop. Here is what it decides; its caller does it.

use crate::cgroup;
use crate::cgroup::trim_slashes;
use crate::paths;
use crate::paths::{join, parent};
use crate::sandbox;
use crate::sandbox::proto::{BindMount, LayerMount, OpenMode, Reply, Request, Setup};
use crate::sandbox::variable;
use crate::strings;
use crate::strings::{chars_of, parse_number, pieces_of, text_between};
use std::collections::HashMap;
use vstd::prelude::*;

verus! {

/// CHOWN, DAC_OVERRIDE, FOWNER, FSETID, KILL, SETGID, SETUID, SETPCAP, NET_BIND_SERVICE,
/// NET_RAW, SYS_CHROOT, MKNOD, AUDIT_WRITE and SETFCAP: what containers are usually granted.
pub const KEPT_CAPABILITIES: u64 = 0xa804_25fb;

pub const MS_RDONLY: u64 = 1;

pub const MS_NOSUID: u64 = 2;

pub const MS_NODEV: u64 = 4;

pub const MS_NOEXEC: u64 = 8;

pub const MS_BIND: u64 = 4096;

pub const MS_REC: u64 = 16384;

// ---- Mount options ----

/// A character in an overlay option: entries are parted by `,` and layers by `:`.
pub open spec fn escaped_char(c: char) -> Seq<char> {
    if c == '\\' || c == ',' || c == ':' {
        seq!['\\', c]
    } else {
        seq![c]
    }
}

pub open spec fn escaped(path: Seq<char>) -> Seq<char>
    decreases path.len(),
{
    if path.len() == 0 {
        Seq::empty()
    } else {
        escaped(path.drop_last()) + escaped_char(path.last())
    }
}

pub fn overlay_path(path: &str) -> (option: String)
    ensures
        option@ == escaped(path@),
{
    let chars = chars_of(path);
    let mut option = String::new();
    let mut at: usize = 0;
    assert(escaped(chars@.take(0)) =~= Seq::<char>::empty());
    while at < chars.len()
        invariant
            at <= chars@.len(),
            option@ == escaped(chars@.take(at as int)),
        decreases chars@.len() - at,
    {
        let c = chars[at];
        assert(chars@.take(at + 1).drop_last() =~= chars@.take(at as int));
        if c == '\\' || c == ',' || c == ':' {
            option.push('\\');
        }
        option.push(c);
        assert(option@ =~= escaped(chars@.take(at as int)) + escaped_char(c));
        at += 1;
    }
    assert(chars@.take(at as int) =~= chars@);
    option
}

/// What is read back from an option: a backslash stands for what follows it. Reading from the
/// left, `pending` says that a backslash was read.
pub open spec fn unescaped(option: Seq<char>, from: int, pending: bool) -> Seq<char>
    decreases option.len() - from,
{
    if from < 0 || from >= option.len() {
        Seq::empty()
    } else if !pending && option[from] == '\\' {
        unescaped(option, from + 1, true)
    } else {
        seq![option[from]] + unescaped(option, from + 1, false)
    }
}

/// No path is taken for another: reading an option back gives the path.
pub proof fn law_options_name_their_path(path: Seq<char>)
    ensures
        unescaped(escaped(path), 0, false) == path,
{
    lemma_unescape(path, 0);
    assert(path.take(0) =~= Seq::<char>::empty());
    assert(escaped(path.take(0)).len() == 0);
    assert(path.skip(0) =~= path);
}

proof fn lemma_unescape(path: Seq<char>, done: int)
    requires
        0 <= done <= path.len(),
    ensures
        escaped(path.take(done)).len() <= escaped(path).len(),
        unescaped(escaped(path), escaped(path.take(done)).len() as int, false) == path.skip(done),
    decreases path.len() - done,
{
    let all = escaped(path);
    let from = escaped(path.take(done)).len() as int;
    if done == path.len() {
        assert(path.take(done) =~= path);
        assert(path.skip(done) =~= Seq::<char>::empty());
    } else {
        let c = path[done];
        lemma_unescape(path, done + 1);
        assert(path.take(done + 1).drop_last() =~= path.take(done));
        let next = escaped(path.take(done + 1));
        lemma_escaped_prefix(path, done + 1);
        assert(next == escaped(path.take(done)) + escaped_char(c));
        assert(forall|i: int| 0 <= i < next.len() ==> all[i] == next[i]);
        assert(path.skip(done) =~= seq![c] + path.skip(done + 1));
        if c == '\\' || c == ',' || c == ':' {
            assert(all[from] == '\\') by {
                assert(next[from] == escaped_char(c)[0]);
            }
            assert(all[from + 1] == c) by {
                assert(next[from + 1] == escaped_char(c)[1]);
            }
            assert(unescaped(all, from, false) == unescaped(all, from + 1, true));
            assert(unescaped(all, from + 1, true) == seq![c] + unescaped(all, from + 2, false));
        } else {
            assert(all[from] == c) by {
                assert(next[from] == escaped_char(c)[0]);
            }
        }
    }
}

proof fn lemma_escaped_prefix(path: Seq<char>, count: int)
    requires
        0 <= count <= path.len(),
    ensures
        escaped(path.take(count)).len() <= escaped(path).len(),
        escaped(path).take(escaped(path.take(count)).len() as int) == escaped(path.take(count)),
        forall|i: int| 0 <= i < escaped(path.take(count)).len() ==> escaped(path)[i] == escaped(
            path.take(count),
        )[i],
    decreases path.len(),
{
    if count == path.len() {
        assert(path.take(count) =~= path);
        assert(escaped(path).take(escaped(path).len() as int) =~= escaped(path));
    } else {
        let rest = path.drop_last();
        lemma_escaped_prefix(rest, count);
        assert(rest.take(count) =~= path.take(count));
        let head = escaped(path.take(count));
        assert(escaped(path).take(head.len() as int) =~= escaped(rest).take(head.len() as int));
    }
}

/// An option is the path itself, but for a backslash before each character that would end it.
pub proof fn law_only_what_would_end_an_option_is_escaped(
    before: Seq<char>,
    c: char,
    after: Seq<char>,
)
    ensures
        escaped(before + seq![c] + after) == escaped(before) + (if c == '\\' || c == ',' || c == ':' {
            seq!['\\', c]
        } else {
            seq![c]
        }) + escaped(after),
        escaped(Seq::empty()) == Seq::<char>::empty(),
    decreases after.len(),
{
    let all = before + seq![c] + after;
    if after.len() == 0 {
        assert(all.drop_last() =~= before);
        assert(escaped(all) =~= escaped(before) + escaped_char(c) + escaped(after));
    } else {
        let rest = after.drop_last();
        law_only_what_would_end_an_option_is_escaped(before, c, rest);
        assert(all.drop_last() =~= before + seq![c] + rest);
        assert(escaped(all) =~= escaped(before) + escaped_char(c) + escaped(after));
    }
}

/// A path without the characters that would end an option is the option.
pub proof fn law_plain_paths_are_options(path: Seq<char>)
    requires
        !path.contains('\\') && !path.contains(',') && !path.contains(':'),
    ensures
        escaped(path) == path,
    decreases path.len(),
{
    if path.len() > 0 {
        let rest = path.drop_last();
        assert forall|i: int| 0 <= i < rest.len() implies #[trigger] path.contains(rest[i]) by {
            assert(path[i] == rest[i]);
        }
        assert(path.contains(path.last()));
        law_plain_paths_are_options(rest);
        assert(escaped(path) =~= path);
    }
}

pub open spec fn overlay_data(lower: Seq<char>, upper: Seq<char>, work: Seq<char>) -> Seq<char> {
    "lowerdir="@ + escaped(lower) + ",upperdir="@ + escaped(upper) + ",workdir="@ + escaped(work)
}

pub fn overlay_options(lower: &str, upper: &str, work: &str) -> (options: String)
    ensures
        options@ == overlay_data(lower@, upper@, work@),
{
    let mut options = "lowerdir=".to_owned();
    options.append(overlay_path(lower).as_str());
    options.append(",upperdir=");
    options.append(overlay_path(upper).as_str());
    options.append(",workdir=");
    options.append(overlay_path(work).as_str());
    options
}

/// Where a path of the sandbox is before its root becomes the root.
pub open spec fn inside_of(root: Seq<char>, target: Seq<char>) -> Seq<char> {
    paths::joined(root, cgroup::without_slashes(target))
}

pub fn inside(root: &str, target: &str) -> (path: String)
    ensures
        path@ == inside_of(root@, target@),
{
    join(root, trim_slashes(target).as_str())
}

/// Nothing that a sandbox names leads outside its root by being absolute.
pub proof fn law_targets_stay_below_the_root(root: Seq<char>, target: Seq<char>)
    requires
        root.len() > 0,
    ensures
        inside_of(root, target).len() >= root.len(),
        inside_of(root, target).take(root.len() as int) == root,
{
    lemma_without_slashes(target);
    let rest = cgroup::without_slashes(target);
    assert(!paths::is_absolute(rest));
    assert(inside_of(root, target).take(root.len() as int) =~= root);
}

proof fn lemma_without_slashes(text: Seq<char>)
    ensures
        !paths::is_absolute(cgroup::without_slashes(text)),
    decreases text.len(),
{
    if text.len() > 0 && text[0] == '/' {
        lemma_without_slashes(text.skip(1));
    }
}

// ---- Building the root ----

/// One step of building a sandbox's root.
#[derive(Debug, PartialEq, Eq)]
pub enum Step {
    /// Keep mounts from reaching other namespaces, and theirs from reaching this one.
    MakePrivate,
    MakeDir(String),
    /// An empty file, where none is.
    MakeFile(String),
    Mount {
        source: String,
        target: String,
        kind: Option<String>,
        flags: u64,
        data: Option<String>,
    },
    /// Makes a whole bind tree read-only.
    ReadOnly(String),
    Link { link: String, target: String },
    /// Make this directory the root, and detach the old one.
    Pivot(String),
    Hostname(String),
    LoopbackUp,
}

pub ghost enum StepView {
    MakePrivate,
    MakeDir(Seq<char>),
    MakeFile(Seq<char>),
    Mount {
        source: Seq<char>,
        target: Seq<char>,
        kind: Option<Seq<char>>,
        flags: u64,
        data: Option<Seq<char>>,
    },
    ReadOnly(Seq<char>),
    Link { link: Seq<char>, target: Seq<char> },
    Pivot(Seq<char>),
    Hostname(Seq<char>),
    LoopbackUp,
}

pub open spec fn option_view(text: Option<String>) -> Option<Seq<char>> {
    match text {
        Some(text) => Some(text@),
        None => None,
    }
}

impl View for Step {
    type V = StepView;

    open spec fn view(&self) -> StepView {
        match *self {
            Step::MakePrivate => StepView::MakePrivate,
            Step::MakeDir(path) => StepView::MakeDir(path@),
            Step::MakeFile(path) => StepView::MakeFile(path@),
            Step::Mount { source, target, kind, flags, data } => StepView::Mount {
                source: source@,
                target: target@,
                kind: option_view(kind),
                flags,
                data: option_view(data),
            },
            Step::ReadOnly(path) => StepView::ReadOnly(path@),
            Step::Link { link, target } => StepView::Link { link: link@, target: target@ },
            Step::Pivot(path) => StepView::Pivot(path@),
            Step::Hostname(name) => StepView::Hostname(name@),
            Step::LoopbackUp => StepView::LoopbackUp,
        }
    }
}

pub open spec fn step_views(steps: Seq<Step>) -> Seq<StepView> {
    steps.map_values(|step: Step| step@)
}

fn put(steps: &mut Vec<Step>, step: Step)
    ensures
        step_views(final(steps)@) == step_views(old(steps)@).push(step@),
{
    steps.push(step);
    assert(step_views(steps@) =~= step_views(old(steps)@).push(step@));
}

fn append(steps: &mut Vec<Step>, more: Vec<Step>)
    ensures
        step_views(final(steps)@) == step_views(old(steps)@) + step_views(more@),
{
    let ghost before = steps@;
    let ghost added = more@;
    let mut more = more;
    steps.append(&mut more);
    assert(steps@ =~= before + added);
    assert(step_views(steps@) =~= step_views(before) + step_views(added));
}

/// A mount of a filesystem of this kind.
pub open spec fn mounted(
    source: Seq<char>,
    target: Seq<char>,
    kind: Seq<char>,
    flags: u64,
    data: Option<Seq<char>>,
) -> StepView {
    StepView::Mount { source, target, kind: Some(kind), flags, data }
}

fn mount(source: &str, target: &str, kind: &str, flags: u64, data: Option<String>) -> (step: Step)
    ensures
        step@ == mounted(source@, target@, kind@, flags, option_view(data)),
{
    Step::Mount {
        source: source.to_owned(),
        target: target.to_owned(),
        kind: Some(kind.to_owned()),
        flags,
        data,
    }
}

pub open spec fn bound(source: Seq<char>, target: Seq<char>, flags: u64) -> StepView {
    StepView::Mount { source, target, kind: None, flags, data: None }
}

fn bind(source: &str, target: &str, flags: u64) -> (step: Step)
    ensures
        step@ == bound(source@, target@, flags),
{
    Step::Mount {
        source: source.to_owned(),
        target: target.to_owned(),
        kind: None,
        flags,
        data: None,
    }
}

pub open spec fn overlaid(
    lower: Seq<char>,
    upper: Seq<char>,
    work: Seq<char>,
    target: Seq<char>,
) -> StepView {
    mounted("overlay"@, target, "overlay"@, 0, Some(overlay_data(lower, upper, work)))
}

fn overlay(lower: &str, upper: &str, work: &str, target: &str) -> (step: Step)
    ensures
        step@ == overlaid(lower@, upper@, work@, target@),
{
    mount("overlay", target, "overlay", 0, Some(overlay_options(lower, upper, work)))
}

/// The steps for the first `upto` layers.
pub open spec fn layer_steps(root: Seq<char>, layers: Seq<LayerMount>, upto: int) -> Seq<StepView>
    decreases upto,
{
    if upto <= 0 {
        Seq::empty()
    } else {
        let layer = layers[upto - 1];
        let target = inside_of(root, layer.target@);
        layer_steps(root, layers, upto - 1).push(StepView::MakeDir(target)).push(
            overlaid(layer.lower@, layer.upper@, layer.work@, target),
        )
    }
}

/// The steps for one bind: a directory or a file to mount it on, the mount, and read-only
/// where it is not writable.
pub open spec fn bind_steps(root: Seq<char>, bind: BindMount, is_dir: bool) -> Seq<StepView> {
    let target = inside_of(root, bind.target@);
    let place = if is_dir {
        seq![StepView::MakeDir(target)]
    } else {
        seq![
            StepView::MakeDir(
                match paths::parent_of(target) {
                    Some(dir) => dir,
                    None => root,
                },
            ),
            StepView::MakeFile(target),
        ]
    };
    let mount = place.push(bound(bind.source@, target, (MS_BIND | MS_REC)));
    if bind.writable {
        mount
    } else {
        mount.push(StepView::ReadOnly(target))
    }
}

pub open spec fn all_bind_steps(
    root: Seq<char>,
    binds: Seq<BindMount>,
    are_dirs: Seq<bool>,
    upto: int,
) -> Seq<StepView>
    decreases upto,
{
    if upto <= 0 {
        Seq::empty()
    } else {
        all_bind_steps(root, binds, are_dirs, upto - 1) + bind_steps(
            root,
            binds[upto - 1],
            are_dirs[upto - 1],
        )
    }
}

pub open spec fn dev_node(dev: Seq<char>, node: Seq<char>) -> Seq<StepView> {
    seq![
        StepView::MakeFile(paths::joined(dev, node)),
        bound("/dev/"@ + node, paths::joined(dev, node), MS_BIND),
    ]
}

/// `/proc`, `/sys` and `/dev`. The agent sees only its own cgroup, read-only, so tools can read
/// their limits.
pub open spec fn system_steps(root: Seq<char>) -> Seq<StepView> {
    let hardened = MS_NOSUID | MS_NODEV | MS_NOEXEC;
    let proc_dir = paths::joined(root, "proc"@);
    let sys = paths::joined(root, "sys"@);
    let dev = paths::joined(root, "dev"@);
    let pts = paths::joined(dev, "pts"@);
    let shm = paths::joined(dev, "shm"@);
    seq![
        StepView::MakeDir(proc_dir),
        mounted("proc"@, proc_dir, "proc"@, hardened, None),
        StepView::MakeDir(sys),
        mounted("sysfs"@, sys, "sysfs"@, hardened | MS_RDONLY, None),
        mounted(
            "cgroup2"@,
            paths::joined(sys, "fs/cgroup"@),
            "cgroup2"@,
            hardened | MS_RDONLY,
            None,
        ),
        StepView::MakeDir(dev),
        mounted("tmpfs"@, dev, "tmpfs"@, MS_NOSUID | MS_NOEXEC, Some("mode=755,size=64k"@)),
    ] + dev_node(dev, "null"@) + dev_node(dev, "zero"@) + dev_node(dev, "full"@) + dev_node(
        dev,
        "random"@,
    ) + dev_node(dev, "urandom"@) + dev_node(dev, "tty"@) + seq![
        StepView::MakeDir(pts),
        mounted(
            "devpts"@,
            pts,
            "devpts"@,
            MS_NOSUID | MS_NOEXEC,
            Some("newinstance,ptmxmode=0666,mode=0620,gid=5"@),
        ),
        StepView::MakeDir(shm),
        mounted("tmpfs"@, shm, "tmpfs"@, MS_NOSUID | MS_NODEV, Some("mode=1777"@)),
        StepView::Link { link: paths::joined(dev, "ptmx"@), target: "pts/ptmx"@ },
        StepView::Link { link: paths::joined(dev, "fd"@), target: "/proc/self/fd"@ },
        StepView::Link { link: paths::joined(dev, "stdin"@), target: "/proc/self/fd/0"@ },
        StepView::Link { link: paths::joined(dev, "stdout"@), target: "/proc/self/fd/1"@ },
        StepView::Link { link: paths::joined(dev, "stderr"@), target: "/proc/self/fd/2"@ },
    ]
}

fn put_node(steps: &mut Vec<Step>, dev: &str, node: &str)
    ensures
        step_views(final(steps)@) == step_views(old(steps)@) + dev_node(dev@, node@),
{
    let ghost before = step_views(steps@);
    let target = join(dev, node);
    let mut source = "/dev/".to_owned();
    source.append(node);
    let mounting = bind(source.as_str(), target.as_str(), MS_BIND);
    put(steps, Step::MakeFile(target));
    put(steps, mounting);
    assert(step_views(steps@) =~= before + dev_node(dev@, node@));
}

fn put_link(steps: &mut Vec<Step>, dev: &str, link: &str, target: &str)
    ensures
        step_views(final(steps)@) == step_views(old(steps)@).push(
            StepView::Link { link: paths::joined(dev@, link@), target: target@ },
        ),
{
    put(steps, Step::Link { link: join(dev, link), target: target.to_owned() });
}

pub fn system_mounts(root: &str) -> (steps: Vec<Step>)
    ensures
        step_views(steps@) == system_steps(root@),
{
    let hardened: u64 = MS_NOSUID | MS_NODEV | MS_NOEXEC;
    let proc_dir = join(root, "proc");
    let sys = join(root, "sys");
    let dev = join(root, "dev");
    let pts = join(dev.as_str(), "pts");
    let shm = join(dev.as_str(), "shm");
    let cgroup_dir = join(sys.as_str(), "fs/cgroup");
    let mut steps: Vec<Step> = Vec::new();
    assert(step_views(steps@) =~= Seq::<StepView>::empty());
    put(&mut steps, Step::MakeDir(proc_dir.clone()));
    put(&mut steps, mount("proc", proc_dir.as_str(), "proc", hardened, None));
    put(&mut steps, Step::MakeDir(sys.clone()));
    put(&mut steps, mount("sysfs", sys.as_str(), "sysfs", hardened | MS_RDONLY, None));
    put(
        &mut steps,
        mount("cgroup2", cgroup_dir.as_str(), "cgroup2", hardened | MS_RDONLY, None),
    );
    put(&mut steps, Step::MakeDir(dev.clone()));
    put(
        &mut steps,
        mount(
            "tmpfs",
            dev.as_str(),
            "tmpfs",
            MS_NOSUID | MS_NOEXEC,
            Some("mode=755,size=64k".to_owned()),
        ),
    );
    put_node(&mut steps, dev.as_str(), "null");
    put_node(&mut steps, dev.as_str(), "zero");
    put_node(&mut steps, dev.as_str(), "full");
    put_node(&mut steps, dev.as_str(), "random");
    put_node(&mut steps, dev.as_str(), "urandom");
    put_node(&mut steps, dev.as_str(), "tty");
    put(&mut steps, Step::MakeDir(pts.clone()));
    put(
        &mut steps,
        mount(
            "devpts",
            pts.as_str(),
            "devpts",
            MS_NOSUID | MS_NOEXEC,
            Some("newinstance,ptmxmode=0666,mode=0620,gid=5".to_owned()),
        ),
    );
    put(&mut steps, Step::MakeDir(shm.clone()));
    put(
        &mut steps,
        mount("tmpfs", shm.as_str(), "tmpfs", MS_NOSUID | MS_NODEV, Some("mode=1777".to_owned())),
    );
    put_link(&mut steps, dev.as_str(), "ptmx", "pts/ptmx");
    put_link(&mut steps, dev.as_str(), "fd", "/proc/self/fd");
    put_link(&mut steps, dev.as_str(), "stdin", "/proc/self/fd/0");
    put_link(&mut steps, dev.as_str(), "stdout", "/proc/self/fd/1");
    put_link(&mut steps, dev.as_str(), "stderr", "/proc/self/fd/2");
    assert(step_views(steps@) =~= system_steps(root@));
    steps
}

pub fn bind_mount(root: &str, mounting: &BindMount, is_dir: bool) -> (steps: Vec<Step>)
    ensures
        step_views(steps@) == bind_steps(root@, *mounting, is_dir),
{
    let target = inside(root, mounting.target.as_str());
    let mut steps: Vec<Step> = Vec::new();
    assert(step_views(steps@) =~= Seq::<StepView>::empty());
    if is_dir {
        put(&mut steps, Step::MakeDir(target.clone()));
    } else {
        let dir = match parent(target.as_str()) {
            Some(dir) => dir,
            None => root.to_owned(),
        };
        put(&mut steps, Step::MakeDir(dir));
        put(&mut steps, Step::MakeFile(target.clone()));
    }
    put(&mut steps, bind(mounting.source.as_str(), target.as_str(), MS_BIND | MS_REC));
    if !mounting.writable {
        put(&mut steps, Step::ReadOnly(target));
    }
    assert(step_views(steps@) =~= bind_steps(root@, *mounting, is_dir));
    steps
}

/// Everything that builds a sandbox's root, in order.
pub open spec fn root_steps(setup: Setup, are_dirs: Seq<bool>) -> Seq<StepView> {
    let root = setup.mount_point@;
    seq![
        StepView::MakePrivate,
        overlaid(setup.rootfs@, setup.root_upper@, setup.root_work@, root),
    ] + layer_steps(root, setup.layers@, setup.layers@.len() as int) + all_bind_steps(
        root,
        setup.binds@,
        are_dirs,
        setup.binds@.len() as int,
    ) + system_steps(root) + seq![
        StepView::Pivot(root),
        StepView::Hostname(setup.hostname@),
        StepView::LoopbackUp,
    ]
}

/// The steps that build a sandbox's root. `are_dirs` says of each bind whether its source is a
/// directory.
pub fn build_root(setup: &Setup, are_dirs: &Vec<bool>) -> (steps: Vec<Step>)
    requires
        are_dirs@.len() == setup.binds@.len(),
    ensures
        step_views(steps@) == root_steps(*setup, are_dirs@),
{
    let root = setup.mount_point.as_str();
    let mut steps: Vec<Step> = Vec::new();
    assert(step_views(steps@) =~= Seq::<StepView>::empty());
    put(&mut steps, Step::MakePrivate);
    put(
        &mut steps,
        overlay(
            setup.rootfs.as_str(),
            setup.root_upper.as_str(),
            setup.root_work.as_str(),
            root,
        ),
    );
    let ghost first = step_views(steps@);
    let mut i: usize = 0;
    assert(first + layer_steps(root@, setup.layers@, 0) =~= first);
    while i < setup.layers.len()
        invariant
            i <= setup.layers@.len(),
            step_views(steps@) == first + layer_steps(root@, setup.layers@, i as int),
        decreases setup.layers@.len() - i,
    {
        let ghost before = layer_steps(root@, setup.layers@, i as int);
        let layer = &setup.layers[i];
        let target = inside(root, layer.target.as_str());
        let mounting = overlay(
            layer.lower.as_str(),
            layer.upper.as_str(),
            layer.work.as_str(),
            target.as_str(),
        );
        put(&mut steps, Step::MakeDir(target));
        put(&mut steps, mounting);
        i += 1;
        assert(step_views(steps@) =~= first + layer_steps(root@, setup.layers@, i as int));
    }
    let ghost second = step_views(steps@);
    let mut j: usize = 0;
    assert(second + all_bind_steps(root@, setup.binds@, are_dirs@, 0) =~= second);
    while j < setup.binds.len()
        invariant
            j <= setup.binds@.len() == are_dirs@.len(),
            step_views(steps@) == second + all_bind_steps(
                root@,
                setup.binds@,
                are_dirs@,
                j as int,
            ),
        decreases setup.binds@.len() - j,
    {
        let more = bind_mount(root, &setup.binds[j], are_dirs[j]);
        append(&mut steps, more);
        j += 1;
        assert(step_views(steps@) =~= second + all_bind_steps(
            root@,
            setup.binds@,
            are_dirs@,
            j as int,
        ));
    }
    let more = system_mounts(root);
    append(&mut steps, more);
    put(&mut steps, Step::Pivot(root.to_owned()));
    put(&mut steps, Step::Hostname(setup.hostname.clone()));
    put(&mut steps, Step::LoopbackUp);
    assert(step_views(steps@) =~= root_steps(*setup, are_dirs@));
    steps
}

/// A path of the sandbox is below the root, however many slashes it begins with.
pub proof fn law_a_target_is_below_the_root(root: Seq<char>, slashes: nat, rest: Seq<char>)
    requires
        root.len() > 0 && root.last() != '/',
        rest.len() == 0 || rest[0] != '/',
    ensures
        inside_of(root, Seq::new(slashes, |i: int| '/') + rest) == root.push('/') + rest,
    decreases slashes,
{
    let target = Seq::new(slashes, |i: int| '/') + rest;
    if slashes == 0 {
        assert(target =~= rest);
    } else {
        let shorter = Seq::new((slashes - 1) as nat, |i: int| '/') + rest;
        assert(target.skip(1) =~= shorter);
        assert(target[0] == '/');
        law_a_target_is_below_the_root(root, (slashes - 1) as nat, rest);
    }
}

/// A place inside the root is not the root.
proof fn lemma_inside_is_longer(root: Seq<char>, target: Seq<char>)
    requires
        root.len() > 0 && root.last() != '/',
    ensures
        inside_of(root, target).len() > root.len(),
{
    lemma_without_slashes(target);
}

proof fn lemma_layer_steps(root: Seq<char>, layers: Seq<LayerMount>, upto: int)
    requires
        0 <= upto <= layers.len(),
    ensures
        layer_steps(root, layers, upto).len() == 2 * upto,
        forall|i: int| #![trigger layers[i]]
            0 <= i < upto ==> {
                let target = inside_of(root, layers[i].target@);
                let steps = layer_steps(root, layers, upto);
                steps[2 * i] == StepView::MakeDir(target) && steps[2 * i + 1] == (StepView::Mount {
                    source: "overlay"@,
                    target,
                    kind: Some("overlay"@),
                    flags: 0,
                    data: Some(
                        overlay_data(layers[i].lower@, layers[i].upper@, layers[i].work@),
                    ),
                })
            },
    decreases upto,
{
    if upto > 0 {
        lemma_layer_steps(root, layers, upto - 1);
    }
}

/// A step that belongs to a bind.
spec fn is_of_bind(root: Seq<char>, binds: Seq<BindMount>, step: StepView) -> bool {
    match step {
        StepView::MakeDir(_) => true,
        StepView::MakeFile(_) => true,
        StepView::Mount { target, kind, .. } => kind is None && exists|j: int|
            0 <= j < binds.len() && target == inside_of(root, #[trigger] binds[j].target@),
        StepView::ReadOnly(target) => exists|j: int|
            0 <= j < binds.len() && !(#[trigger] binds[j]).writable && target == inside_of(
                root,
                binds[j].target@,
            ),
        _ => false,
    }
}

proof fn lemma_all_bind_steps(
    root: Seq<char>,
    binds: Seq<BindMount>,
    are_dirs: Seq<bool>,
    upto: int,
)
    requires
        0 <= upto <= binds.len() == are_dirs.len(),
    ensures
        forall|k: int| #![trigger all_bind_steps(root, binds, are_dirs, upto)[k]]
            0 <= k < all_bind_steps(root, binds, are_dirs, upto).len() ==> is_of_bind(
                root,
                binds,
                all_bind_steps(root, binds, are_dirs, upto)[k],
            ),
    decreases upto,
{
    if upto > 0 {
        lemma_all_bind_steps(root, binds, are_dirs, upto - 1);
        let before = all_bind_steps(root, binds, are_dirs, upto - 1);
        let bind = binds[upto - 1];
        let own = bind_steps(root, bind, are_dirs[upto - 1]);
        let steps = all_bind_steps(root, binds, are_dirs, upto);
        assert forall|k: int| #![trigger steps[k]] 0 <= k < steps.len() implies is_of_bind(
            root,
            binds,
            steps[k],
        ) by {
            if k < before.len() {
                assert(steps[k] == before[k]);
            } else {
                assert(steps[k] == own[k - before.len()]);
                assert(binds[upto - 1].target@ == bind.target@);
            }
        }
    }
}

/// The step that mounts bind `j`.
proof fn lemma_bind_mounted(
    root: Seq<char>,
    binds: Seq<BindMount>,
    are_dirs: Seq<bool>,
    upto: int,
    j: int,
) -> (k: int)
    requires
        0 <= j < upto <= binds.len() == are_dirs.len(),
    ensures
        is_mounted_at(
            all_bind_steps(root, binds, are_dirs, upto),
            k,
            binds[j],
            are_dirs[j],
            inside_of(root, binds[j].target@),
        ),
    decreases upto,
{
    let before = all_bind_steps(root, binds, are_dirs, upto - 1);
    let bind = binds[upto - 1];
    let own = bind_steps(root, bind, are_dirs[upto - 1]);
    let steps = all_bind_steps(root, binds, are_dirs, upto);
    if j < upto - 1 {
        let k = lemma_bind_mounted(root, binds, are_dirs, upto - 1, j);
        assert(steps[k] == before[k] && steps[k - 1] == before[k - 1]);
        if k + 1 < before.len() {
            assert(steps[k + 1] == before[k + 1]);
        }
        k
    } else {
        let at = if are_dirs[upto - 1] {
            1int
        } else {
            2int
        };
        let k = before.len() + at;
        assert(4096u64 | 16384u64 == 20480u64) by (bit_vector);
        assert(steps[k] == own[at] && steps[k - 1] == own[at - 1]);
        if !bind.writable {
            assert(steps[k + 1] == own[at + 1]);
        }
        k
    }
}

/// Step `k` binds the source of a bind at `place`, with everything that is mounted below it, after
/// a directory or a file was made there; and it is read-only from then on unless it is writable.
pub open spec fn is_mounted_at(
    steps: Seq<StepView>,
    k: int,
    bind: BindMount,
    is_dir: bool,
    place: Seq<char>,
) -> bool {
    &&& 0 < k < steps.len()
    &&& steps[k - 1] == if is_dir {
        StepView::MakeDir(place)
    } else {
        StepView::MakeFile(place)
    }
    &&& !is_dir ==> k > 1 && (paths::parent_of(place) matches Some(dir) ==> steps[k - 2]
        == StepView::MakeDir(dir))
    &&& steps[k] == (StepView::Mount {
        source: bind.source@,
        target: place,
        kind: None,
        flags: 20480,
        data: None,
    })
    &&& !bind.writable ==> k + 1 < steps.len() && steps[k + 1] == StepView::ReadOnly(place)
}

/// What the system's own steps are not: none mounts an overlay, none mounts at the root and none
/// makes anything read-only or the root.
proof fn lemma_system_steps(root: Seq<char>)
    requires
        root.len() > 0 && root.last() != '/',
    ensures
        forall|k: int| #![trigger system_steps(root)[k]]
            0 <= k < system_steps(root).len() ==> match system_steps(root)[k] {
                StepView::Mount { target, kind, .. } => kind != Some("overlay"@) && target.len()
                    > root.len(),
                StepView::MakeDir(_) => true,
                StepView::MakeFile(_) => true,
                StepView::Link { .. } => true,
                _ => false,
            },
{
    reveal_strlit("overlay");
    reveal_strlit("proc");
    reveal_strlit("sysfs");
    reveal_strlit("cgroup2");
    reveal_strlit("tmpfs");
    reveal_strlit("devpts");
    reveal_strlit("sys");
    reveal_strlit("dev");
    reveal_strlit("pts");
    reveal_strlit("shm");
    reveal_strlit("fs/cgroup");
    reveal_strlit("null");
    reveal_strlit("zero");
    reveal_strlit("full");
    reveal_strlit("random");
    reveal_strlit("urandom");
    reveal_strlit("tty");
    assert("overlay"@[0] == 'o' && "cgroup2"@[0] == 'c');
}

/// The system's own mounts: what a sandbox sees of processes, devices and its limits. Nothing there
/// sets user ids; what is not a device holds none; what tells limits is read-only; and the devices
/// are the host's.
pub proof fn law_what_a_sandbox_sees_of_the_system(root: Seq<char>)
    requires
        root.len() > 0 && root.last() != '/',
    ensures
        system_steps(root).len() == 28,
        system_steps(root)[1] == (StepView::Mount {
            source: "proc"@,
            target: root + "/proc"@,
            kind: Some("proc"@),
            flags: 14,
            data: None,
        }),
        system_steps(root)[3] == (StepView::Mount {
            source: "sysfs"@,
            target: root + "/sys"@,
            kind: Some("sysfs"@),
            flags: 15,
            data: None,
        }),
        system_steps(root)[4] == (StepView::Mount {
            source: "cgroup2"@,
            target: root + "/sys/fs/cgroup"@,
            kind: Some("cgroup2"@),
            flags: 15,
            data: None,
        }),
        system_steps(root)[6] == (StepView::Mount {
            source: "tmpfs"@,
            target: root + "/dev"@,
            kind: Some("tmpfs"@),
            flags: 10,
            data: Some("mode=755,size=64k"@),
        }),
        system_steps(root)[8] == (StepView::Mount {
            source: "/dev/null"@,
            target: root + "/dev/null"@,
            kind: None,
            flags: 4096,
            data: None,
        }),
        system_steps(root)[10] == (StepView::Mount {
            source: "/dev/zero"@,
            target: root + "/dev/zero"@,
            kind: None,
            flags: 4096,
            data: None,
        }),
        system_steps(root)[12] == (StepView::Mount {
            source: "/dev/full"@,
            target: root + "/dev/full"@,
            kind: None,
            flags: 4096,
            data: None,
        }),
        system_steps(root)[14] == (StepView::Mount {
            source: "/dev/random"@,
            target: root + "/dev/random"@,
            kind: None,
            flags: 4096,
            data: None,
        }),
        system_steps(root)[16] == (StepView::Mount {
            source: "/dev/urandom"@,
            target: root + "/dev/urandom"@,
            kind: None,
            flags: 4096,
            data: None,
        }),
        system_steps(root)[18] == (StepView::Mount {
            source: "/dev/tty"@,
            target: root + "/dev/tty"@,
            kind: None,
            flags: 4096,
            data: None,
        }),
        system_steps(root)[20] == (StepView::Mount {
            source: "devpts"@,
            target: root + "/dev/pts"@,
            kind: Some("devpts"@),
            flags: 10,
            data: Some("newinstance,ptmxmode=0666,mode=0620,gid=5"@),
        }),
        system_steps(root)[22] == (StepView::Mount {
            source: "tmpfs"@,
            target: root + "/dev/shm"@,
            kind: Some("tmpfs"@),
            flags: 6,
            data: Some("mode=1777"@),
        }),
        system_steps(root)[23] == (StepView::Link { link: root + "/dev/ptmx"@, target: "pts/ptmx"@ }),
        system_steps(root)[24] == (StepView::Link { link: root + "/dev/fd"@, target: "/proc/self/fd"@ }),
        system_steps(root)[25] == (StepView::Link { link: root + "/dev/stdin"@, target: "/proc/self/fd/0"@ }),
        system_steps(root)[26] == (StepView::Link { link: root + "/dev/stdout"@, target: "/proc/self/fd/1"@ }),
        system_steps(root)[27] == (StepView::Link { link: root + "/dev/stderr"@, target: "/proc/self/fd/2"@ }),
{
    reveal_strlit("/dev");
    reveal_strlit("/dev/");
    reveal_strlit("/dev/fd");
    reveal_strlit("/dev/full");
    reveal_strlit("/dev/null");
    reveal_strlit("/dev/ptmx");
    reveal_strlit("/dev/pts");
    reveal_strlit("/dev/random");
    reveal_strlit("/dev/shm");
    reveal_strlit("/dev/stderr");
    reveal_strlit("/dev/stdin");
    reveal_strlit("/dev/stdout");
    reveal_strlit("/dev/tty");
    reveal_strlit("/dev/urandom");
    reveal_strlit("/dev/zero");
    reveal_strlit("/proc");
    reveal_strlit("/sys");
    reveal_strlit("/sys/fs/cgroup");
    reveal_strlit("dev");
    reveal_strlit("fd");
    reveal_strlit("fs/cgroup");
    reveal_strlit("full");
    reveal_strlit("null");
    reveal_strlit("proc");
    reveal_strlit("ptmx");
    reveal_strlit("pts");
    reveal_strlit("random");
    reveal_strlit("shm");
    reveal_strlit("stderr");
    reveal_strlit("stdin");
    reveal_strlit("stdout");
    reveal_strlit("sys");
    reveal_strlit("tty");
    reveal_strlit("urandom");
    reveal_strlit("zero");
    assert(2u64 | 4u64 | 8u64 == 14u64) by (bit_vector);
    assert(14u64 | 1u64 == 15u64) by (bit_vector);
    assert(2u64 | 8u64 == 10u64) by (bit_vector);
    assert(2u64 | 4u64 == 6u64) by (bit_vector);
    assert(paths::joined(root, "proc"@) =~= root + "/proc"@);
    assert(paths::joined(root, "sys"@) =~= root + "/sys"@);
    assert(paths::joined(root, "dev"@) =~= root + "/dev"@);
    assert(paths::joined(root + "/sys"@, "fs/cgroup"@) =~= root + "/sys/fs/cgroup"@);
    assert(paths::joined(root + "/dev"@, "pts"@) =~= root + "/dev/pts"@);
    assert(paths::joined(root + "/dev"@, "shm"@) =~= root + "/dev/shm"@);
    assert(paths::joined(root + "/dev"@, "ptmx"@) =~= root + "/dev/ptmx"@);
    assert(paths::joined(root + "/dev"@, "fd"@) =~= root + "/dev/fd"@);
    assert(paths::joined(root + "/dev"@, "stdin"@) =~= root + "/dev/stdin"@);
    assert(paths::joined(root + "/dev"@, "stdout"@) =~= root + "/dev/stdout"@);
    assert(paths::joined(root + "/dev"@, "stderr"@) =~= root + "/dev/stderr"@);
    lemma_dev_node(root, "null"@);
    assert("/dev/"@ + "null"@ =~= "/dev/null"@);
    assert(root + "/dev/"@ + "null"@ =~= root + "/dev/null"@);
    lemma_dev_node(root, "zero"@);
    assert("/dev/"@ + "zero"@ =~= "/dev/zero"@);
    assert(root + "/dev/"@ + "zero"@ =~= root + "/dev/zero"@);
    lemma_dev_node(root, "full"@);
    assert("/dev/"@ + "full"@ =~= "/dev/full"@);
    assert(root + "/dev/"@ + "full"@ =~= root + "/dev/full"@);
    lemma_dev_node(root, "random"@);
    assert("/dev/"@ + "random"@ =~= "/dev/random"@);
    assert(root + "/dev/"@ + "random"@ =~= root + "/dev/random"@);
    lemma_dev_node(root, "urandom"@);
    assert("/dev/"@ + "urandom"@ =~= "/dev/urandom"@);
    assert(root + "/dev/"@ + "urandom"@ =~= root + "/dev/urandom"@);
    lemma_dev_node(root, "tty"@);
    assert("/dev/"@ + "tty"@ =~= "/dev/tty"@);
    assert(root + "/dev/"@ + "tty"@ =~= root + "/dev/tty"@);
}

proof fn lemma_dev_node(root: Seq<char>, node: Seq<char>)
    requires
        node.len() > 0 && node[0] != '/',
    ensures
        paths::joined(root + "/dev"@, node) == root + "/dev/"@ + node,
{
    reveal_strlit("/dev");
    reveal_strlit("/dev/");
    assert(paths::joined(root + "/dev"@, node) =~= root + "/dev/"@ + node);
}

/// The first step that mounts puts the root filesystem at the mount point, under what the sandbox
/// writes to it. No other step mounts there, none mounts before it, and the mount point becomes
/// the root when everything is mounted.
pub proof fn law_only_the_root_filesystem_is_the_root(setup: Setup, are_dirs: Seq<bool>)
    requires
        are_dirs.len() == setup.binds@.len(),
        setup.mount_point@.len() > 0 && setup.mount_point@.last() != '/',
    ensures
        ({
            let steps = root_steps(setup, are_dirs);
            let last = steps.len() - 1;
            &&& steps.len() > 4
            &&& steps[0] == StepView::MakePrivate
            &&& steps[1] == (StepView::Mount {
                source: "overlay"@,
                target: setup.mount_point@,
                kind: Some("overlay"@),
                flags: 0,
                data: Some(
                    "lowerdir="@ + escaped(setup.rootfs@) + ",upperdir="@ + escaped(
                        setup.root_upper@,
                    ) + ",workdir="@ + escaped(setup.root_work@),
                ),
            })
            &&& forall|k: int| #![trigger steps[k]]
                0 <= k < steps.len() && steps[k] is Mount && steps[k]->Mount_target
                    == setup.mount_point@ ==> k == 1
            &&& forall|k: int| #![trigger steps[k]]
                0 <= k < steps.len() ==> (steps[k] is Pivot <==> k == last - 2)
            &&& steps[last - 2] == StepView::Pivot(setup.mount_point@)
            &&& steps[last - 1] == StepView::Hostname(setup.hostname@)
            &&& steps[last] == StepView::LoopbackUp
        }),
{
    lemma_steps(setup, are_dirs);
}

/// Where the steps of each part stand.
proof fn lemma_steps(setup: Setup, are_dirs: Seq<bool>)
    requires
        are_dirs.len() == setup.binds@.len(),
        setup.mount_point@.len() > 0 && setup.mount_point@.last() != '/',
    ensures
        ({
            let root = setup.mount_point@;
            let steps = root_steps(setup, are_dirs);
            let layers = layer_steps(root, setup.layers@, setup.layers@.len() as int);
            let binds = all_bind_steps(root, setup.binds@, are_dirs, setup.binds@.len() as int);
            let system = system_steps(root);
            let a = 2 + layers.len();
            let b = a + binds.len();
            let c = b + system.len();
            &&& steps.len() == c + 3
            &&& steps[0] == StepView::MakePrivate
            &&& steps[1] == overlaid(setup.rootfs@, setup.root_upper@, setup.root_work@, root)
            &&& forall|k: int| #![trigger steps[k]] 2 <= k < a ==> steps[k] == layers[k - 2]
            &&& forall|k: int| #![trigger steps[k]] a <= k < b ==> steps[k] == binds[k - a]
            &&& forall|k: int| #![trigger steps[k]] b <= k < c ==> steps[k] == system[k - b]
            &&& steps[c as int] == StepView::Pivot(root)
            &&& steps[c as int + 1] == StepView::Hostname(setup.hostname@)
            &&& steps[c as int + 2] == StepView::LoopbackUp
            &&& layers.len() == 2 * setup.layers@.len()
            &&& system.len() > 0
            &&& forall|k: int| #![trigger steps[k]]
                2 <= k < c ==> !(steps[k] is Pivot) && (steps[k] is Mount
                    ==> steps[k]->Mount_target.len() > root.len()) && (steps[k] is Mount
                    && steps[k]->Mount_kind == Some("overlay"@) ==> k < a && k % 2 == 1) && (
                steps[k] is ReadOnly ==> a <= k < b)
        }),
{
    let root = setup.mount_point@;
    let steps = root_steps(setup, are_dirs);
    let layers = layer_steps(root, setup.layers@, setup.layers@.len() as int);
    let binds = all_bind_steps(root, setup.binds@, are_dirs, setup.binds@.len() as int);
    let system = system_steps(root);
    let a = 2 + layers.len();
    let b = a + binds.len();
    let c = b + system.len();
    lemma_layer_steps(root, setup.layers@, setup.layers@.len() as int);
    lemma_all_bind_steps(root, setup.binds@, are_dirs, setup.binds@.len() as int);
    lemma_system_steps(root);
    assert forall|k: int| #![trigger steps[k]] 2 <= k < c implies !(steps[k] is Pivot) && (
    steps[k] is Mount ==> steps[k]->Mount_target.len() > root.len()) && (steps[k] is Mount
        && steps[k]->Mount_kind == Some("overlay"@) ==> k < a && k % 2 == 1) && (
    steps[k] is ReadOnly ==> a <= k < b) by {
        if k < a {
            assert(steps[k] == layers[k - 2]);
            let i = (k - 2) / 2;
            let layer = setup.layers@[i];
            lemma_inside_is_longer(root, layer.target@);
            assert(layers[2 * i] is MakeDir);
            if k % 2 == 1 {
                assert(k - 2 == 2 * i + 1);
            } else {
                assert(k - 2 == 2 * i);
            }
        } else if k < b {
            let step = binds[k - a];
            assert(steps[k] == step);
            assert(is_of_bind(root, setup.binds@, step));
            if step is Mount {
                let j = choose|j: int|
                    0 <= j < setup.binds@.len() && step->Mount_target == inside_of(
                        root,
                        #[trigger] setup.binds@[j].target@,
                    );
                lemma_inside_is_longer(root, setup.binds@[j].target@);
            }
        } else {
            assert(steps[k] == system[k - b]);
        }
    }
}

/// Each layer of a sandbox is mounted at its own target below the mount point, on a directory that
/// was made for it, with its own lower, upper and work directories; and no overlay is mounted but
/// the root's and the layers'.
pub proof fn law_each_layer_is_mounted_at_its_target(
    setup: Setup,
    are_dirs: Seq<bool>,
    i: int,
    slashes: nat,
    rest: Seq<char>,
)
    requires
        are_dirs.len() == setup.binds@.len(),
        setup.mount_point@.len() > 0 && setup.mount_point@.last() != '/',
        0 <= i < setup.layers@.len(),
        setup.layers@[i].target@ == Seq::new(slashes, |k: int| '/') + rest,
        rest.len() == 0 || rest[0] != '/',
    ensures
        ({
            let steps = root_steps(setup, are_dirs);
            let layer = setup.layers@[i];
            let place = setup.mount_point@.push('/') + rest;
            &&& steps.len() > 2 * setup.layers@.len() + 2
            &&& steps[2 + 2 * i] == StepView::MakeDir(place)
            &&& steps[3 + 2 * i] == (StepView::Mount {
                source: "overlay"@,
                target: place,
                kind: Some("overlay"@),
                flags: 0,
                data: Some(
                    "lowerdir="@ + escaped(layer.lower@) + ",upperdir="@ + escaped(layer.upper@)
                        + ",workdir="@ + escaped(layer.work@),
                ),
            })
            &&& forall|k: int| #![trigger steps[k]]
                0 <= k < steps.len() && steps[k] is Mount && steps[k]->Mount_kind == Some(
                    "overlay"@,
                ) ==> k == 1 || (3 <= k < 3 + 2 * setup.layers@.len() && k % 2 == 1)
        }),
{
    let root = setup.mount_point@;
    let steps = root_steps(setup, are_dirs);
    lemma_steps(setup, are_dirs);
    lemma_layer_steps(root, setup.layers@, setup.layers@.len() as int);
    law_a_target_is_below_the_root(root, slashes, rest);
    let layer = setup.layers@[i];
    let layers = layer_steps(root, setup.layers@, setup.layers@.len() as int);
    assert(steps[2 + 2 * i] == layers[2 * i]);
    assert(steps[3 + 2 * i] == layers[2 * i + 1]);
}

/// Each bind of a sandbox is mounted at its own target below the mount point, and is read-only
/// from then on unless it is writable; and nothing is made read-only but such binds.
pub proof fn law_each_bind_is_mounted_at_its_target(
    setup: Setup,
    are_dirs: Seq<bool>,
    j: int,
    slashes: nat,
    rest: Seq<char>,
)
    requires
        are_dirs.len() == setup.binds@.len(),
        setup.mount_point@.len() > 0 && setup.mount_point@.last() != '/',
        0 <= j < setup.binds@.len(),
        setup.binds@[j].target@ == Seq::new(slashes, |k: int| '/') + rest,
        rest.len() == 0 || rest[0] != '/',
    ensures
        exists|k: int|
            k > 1 + 2 * setup.layers@.len() && #[trigger] is_mounted_at(
                root_steps(setup, are_dirs),
                k,
                setup.binds@[j],
                are_dirs[j],
                setup.mount_point@.push('/') + rest,
            ),
        forall|k: int| #![trigger root_steps(setup, are_dirs)[k]]
            0 <= k < root_steps(setup, are_dirs).len() && root_steps(setup, are_dirs)[k] is ReadOnly
                ==> exists|other: int|
                0 <= other < setup.binds@.len() && !(#[trigger] setup.binds@[other]).writable
                    && root_steps(setup, are_dirs)[k] == StepView::ReadOnly(
                    inside_of(setup.mount_point@, setup.binds@[other].target@),
                ),
{
    let root = setup.mount_point@;
    let steps = root_steps(setup, are_dirs);
    let count = setup.binds@.len() as int;
    let binds = all_bind_steps(root, setup.binds@, are_dirs, count);
    let a = 2 + 2 * setup.layers@.len();
    lemma_steps(setup, are_dirs);
    law_a_target_is_below_the_root(root, slashes, rest);
    let bind = setup.binds@[j];
    let place = inside_of(root, bind.target@);
    let k = lemma_bind_mounted(root, setup.binds@, are_dirs, count, j);
    assert(steps[a + k] == binds[k] && steps[a + k - 1] == binds[k - 1]);
    if k + 1 < binds.len() {
        assert(steps[a + k + 1] == binds[k + 1]);
    }
    assert(is_mounted_at(steps, a + k, bind, are_dirs[j], place));
    assert forall|k: int| #![trigger steps[k]] 0 <= k < steps.len() && steps[k] is ReadOnly implies
        exists|other: int|
        0 <= other < setup.binds@.len() && !(#[trigger] setup.binds@[other]).writable && steps[k]
            == StepView::ReadOnly(inside_of(root, setup.binds@[other].target@)) by {
        assert(steps[k] == binds[k - a]);
        lemma_all_bind_steps(root, setup.binds@, are_dirs, count);
        assert(is_of_bind(root, setup.binds@, binds[k - a]));
    }
}

// ---- Capabilities ----

pub open spec fn is_kept(capability: u64) -> bool {
    KEPT_CAPABILITIES & (1u64 << capability) != 0
}

/// The capabilities below `upto` that are dropped.
pub open spec fn dropped_below(upto: int) -> Seq<u64>
    decreases upto,
{
    if upto <= 0 {
        Seq::empty()
    } else if is_kept((upto - 1) as u64) {
        dropped_below(upto - 1)
    } else {
        dropped_below(upto - 1).push((upto - 1) as u64)
    }
}

/// Every capability that a sandbox does without.
pub fn dropped_capabilities() -> (dropped: Vec<u64>)
    ensures
        dropped@ == dropped_below(64),
{
    let mut dropped: Vec<u64> = Vec::new();
    let mut capability: u64 = 0;
    while capability < 64
        invariant
            capability <= 64,
            dropped@ == dropped_below(capability as int),
        decreases 64 - capability,
    {
        if KEPT_CAPABILITIES & (1u64 << capability) == 0 {
            dropped.push(capability);
        }
        capability += 1;
    }
    dropped
}

/// Every capability that is not kept is dropped, and none that is kept.
pub proof fn law_every_other_capability_is_dropped(capability: u64, upto: int)
    requires
        0 <= upto <= 64,
    ensures
        dropped_below(upto).contains(capability) <==> capability < upto && !is_kept(capability),
    decreases upto,
{
    if upto > 0 {
        let before = dropped_below(upto - 1);
        let now = dropped_below(upto);
        let last = (upto - 1) as u64;
        law_every_other_capability_is_dropped(capability, upto - 1);
        if now != before {
            assert(now == before.push(last));
            assert(now[before.len() as int] == last);
            if before.contains(capability) {
                let k = choose|k: int| 0 <= k < before.len() && before[k] == capability;
                assert(now[k] == capability);
            }
            if now.contains(capability) && capability != last {
                let k = choose|k: int| 0 <= k < now.len() && now[k] == capability;
                assert(before[k] == capability);
            }
        }
    }
}

/// The kept capabilities as the kernel takes them: the low and the high word.
pub fn capability_words() -> (words: (u32, u32))
    ensures
        words.0 == 0xa804_25fb,
        words.1 == 0,
{
    let low: u64 = KEPT_CAPABILITIES % 0x1_0000_0000;
    let high: u64 = KEPT_CAPABILITIES / 0x1_0000_0000;
    (low as u32, high as u32)
}

/// Exactly these are kept: CHOWN, DAC_OVERRIDE, FOWNER, FSETID, KILL, SETGID, SETUID, SETPCAP,
/// NET_BIND_SERVICE, NET_RAW, SYS_CHROOT, MKNOD, AUDIT_WRITE and SETFCAP.
pub proof fn law_kept_capabilities(capability: u64)
    requires
        capability < 64,
    ensures
        is_kept(capability) <==> (capability == 0 || capability == 1 || capability == 3 || capability
            == 4 || capability == 5 || capability == 6 || capability == 7 || capability == 8
            || capability == 10 || capability == 13 || capability == 18 || capability == 27
            || capability == 29 || capability == 31),
{
    assert(0xa804_25fbu64 & (1u64 << capability) != 0 <==> (capability == 0 || capability == 1
        || capability == 3 || capability == 4 || capability == 5 || capability == 6 || capability
        == 7 || capability == 8 || capability == 10 || capability == 13 || capability == 18
        || capability == 27 || capability == 29 || capability == 31)) by (bit_vector)
        requires
            capability < 64,
    ;
}

// ---- Commands ----

/// The commands that run: the process that leads each, and the request that started it.
pub struct Commands {
    running: HashMap<i32, u64>,
}

impl View for Commands {
    type V = Map<i32, u64>;

    closed spec fn view(&self) -> Map<i32, u64> {
        self.running@
    }
}

impl Commands {
    pub fn new() -> (commands: Self)
        ensures
            commands@ == Map::<i32, u64>::empty(),
    {
        Commands { running: HashMap::new() }
    }

    /// A command was started.
    pub fn insert(&mut self, pid: i32, id: u64)
        ensures
            final(self)@ == old(self)@.insert(pid, id),
    {
        self.running.insert(pid, id);
    }

    /// A process exited: the request that started it, where it led a command.
    pub fn remove(&mut self, pid: i32) -> (id: Option<u64>)
        ensures
            final(self)@ == old(self)@.remove(pid),
            id == (if old(self)@.dom().contains(pid) {
                Some(old(self)@[pid])
            } else {
                None
            }),
    {
        self.running.remove(&pid)
    }

    /// The processes that lead the command of a request, in no particular order.
    pub fn leaders(&self, id: u64) -> (pids: Vec<i32>)
        ensures
            pids@.no_duplicates(),
            forall|pid: i32| #![trigger pids@.contains(pid)]
                pids@.contains(pid) <==> self@.dom().contains(pid) && self@[pid] == id,
    {
        let mut pids: Vec<i32> = Vec::new();
        let ghost running = self.running@;
        for (pid, command) in it: self.running.iter()
            invariant
                running == self.running@,
                it.seq().no_duplicates(),
                forall|i: int| #![trigger it.seq()[i]]
                    0 <= i < it.seq().len() ==> running.contains_key(*it.seq()[i].0)
                        && running[*it.seq()[i].0] == *it.seq()[i].1,
                forall|k: i32| #[trigger]
                    running.contains_key(k) ==> it.seq().contains((&k, &running[k])),
                pids@.no_duplicates(),
                forall|pid: i32| #![trigger pids@.contains(pid)]
                    pids@.contains(pid) ==> running.contains_key(pid) && running[pid] == id,
                forall|j: int| #![trigger it.seq()[j]]
                    it.index() <= j < it.seq().len() ==> !pids@.contains(*it.seq()[j].0),
                forall|j: int| #![trigger it.seq()[j]]
                    0 <= j < it.index() && *it.seq()[j].1 == id ==> pids@.contains(
                        *it.seq()[j].0,
                    ),
        {
            let ghost all = it.seq();
            let ghost at = it.index() as int;
            let ghost before = pids@;
            assert(all[at] == (pid, command));
            if *command == id {
                pids.push(*pid);
            }
            proof {
                assert forall|p: i32| #![trigger pids@.contains(p)]
                    pids@.contains(p) == (before.contains(p) || (*command == id && p == *pid)) by {
                    if before.contains(p) {
                        let k = choose|k: int| 0 <= k < before.len() && before[k] == p;
                        assert(pids@[k] == p);
                    }
                    if *command == id {
                        assert(pids@[before.len() as int] == *pid);
                    }
                }
                assert forall|j: int| #![trigger all[j]]
                    at + 1 <= j < all.len() implies !pids@.contains(*all[j].0) by {
                    if *all[j].0 == *pid {
                        assert(all[j] == all[at]);
                    }
                }
            }
        }
        pids
    }
}

// ---- Requests ----

/// What init does about a request.
#[derive(Debug, PartialEq, Eq)]
pub enum Todo {
    /// Start the command.
    Spawn,
    /// Kill these process groups.
    Kill(Vec<i32>),
    /// Open the path.
    Open,
    Answer(Reply),
    Exit,
    /// A request that cannot be: init ends with this error.
    Fail(String),
}

impl Commands {
    /// What to do about a request that came with so many descriptors. `only_init` says that no
    /// other process is alive.
    pub fn handle(&self, request: &Request, descriptors: usize, only_init: bool) -> (todo: Todo)
        ensures
            match *request {
                Request::Setup(_) => todo matches Todo::Fail(error) && error@
                    == "sandbox is already set up"@,
                Request::Spawn { .. } => if descriptors == 0 {
                    todo matches Todo::Fail(error) && error@ == "spawn without output"@
                } else {
                    todo is Spawn
                },
                Request::Kill { id } => {
                    &&& todo is Kill
                    &&& todo->Kill_0@.no_duplicates()
                    &&& forall|pid: i32| #![trigger todo->Kill_0@.contains(pid)]
                        todo->Kill_0@.contains(pid) <==> self@.dom().contains(pid) && self@[pid]
                            == id
                },
                Request::Open { .. } => todo is Open,
                Request::Shutdown { id, force } => if force || only_init {
                    todo is Exit
                } else {
                    todo matches Todo::Answer(reply) && reply == (Reply::ShutdownRefused { id })
                },
            },
    {
        match request {
            Request::Setup(_) => Todo::Fail("sandbox is already set up".to_owned()),
            Request::Spawn { .. } => if descriptors == 0 {
                Todo::Fail("spawn without output".to_owned())
            } else {
                Todo::Spawn
            },
            Request::Kill { id } => Todo::Kill(self.leaders(*id)),
            Request::Open { .. } => Todo::Open,
            Request::Shutdown { id, force } => if *force || only_init {
                Todo::Exit
            } else {
                Todo::Answer(Reply::ShutdownRefused { id: *id })
            },
        }
    }

    /// A command was started, or could not be: what the harness is told.
    pub fn spawned(&mut self, id: u64, result: Result<i32, String>) -> (reply: Reply)
        ensures
            match result {
                Ok(pid) => final(self)@ == old(self)@.insert(pid, id) && reply == (Reply::Spawned {
                    id,
                }),
                Err(error) => final(self)@ == old(self)@ && reply == (Reply::SpawnFailed {
                    id,
                    error,
                }),
            },
    {
        match result {
            Ok(pid) => {
                self.insert(pid, id);
                Reply::Spawned { id }
            },
            Err(error) => Reply::SpawnFailed { id, error },
        }
    }

    /// A process was reaped: what the harness is told, where it led a command.
    pub fn reaped(&mut self, pid: i32, status: u32) -> (reply: Option<Reply>)
        ensures
            final(self)@ == old(self)@.remove(pid),
            reply == (if old(self)@.dom().contains(pid) {
                Some(
                    Reply::Exited {
                        id: old(self)@[pid],
                        code: exit_code(status),
                        signal: end_signal(status),
                    },
                )
            } else {
                None
            }),
    {
        match self.remove(pid) {
            Some(id) => {
                let (code, signal) = wait_status(status);
                Some(Reply::Exited { id, code, signal })
            },
            None => None,
        }
    }
}

/// The exit code in a wait status: the second byte, where the process was not signalled.
pub open spec fn exit_code(status: u32) -> Option<i32> {
    if status % 128 == 0 {
        Some(((status / 256) % 256) as i32)
    } else {
        None
    }
}

/// The signal in a wait status that ended the process.
pub open spec fn end_signal(status: u32) -> Option<i32> {
    if status % 128 == 0 {
        None
    } else {
        Some((status % 128) as i32)
    }
}

/// What the kernel says of a process that exits with a code is that code, and of one that a signal
/// ends is that signal, whether it left a core or not.
pub proof fn law_the_end_of_a_process_is_told(code: u32, signal: u32, core: bool)
    requires
        code < 256,
        0 < signal < 128,
    ensures
        exit_code((code * 256) as u32) == Some(code as i32),
        end_signal((code * 256) as u32) is None,
        end_signal(
            (signal + if core {
                128u32
            } else {
                0u32
            }) as u32,
        ) == Some(signal as i32),
        exit_code(
            (signal + if core {
                128u32
            } else {
                0u32
            }) as u32,
        ) is None,
{
}

/// How a process ended: its exit code or its signal, never both.
pub fn wait_status(status: u32) -> (end: (Option<i32>, Option<i32>))
    ensures
        end.0 == exit_code(status),
        end.1 == end_signal(status),
        end.0 is Some <==> end.1 is None,
{
    if status % 128 == 0 {
        (Some(((status / 256) % 256) as i32), None)
    } else {
        (None, Some((status % 128) as i32))
    }
}

/// What the harness is told of a path that was opened, or failed with this error number.
pub fn opened(id: u64, failure: Option<Option<i32>>) -> (reply: Reply)
    ensures
        reply == (match failure {
            None => Reply::Opened { id },
            Some(Some(errno)) => Reply::OpenFailed { id, errno },
            Some(None) => Reply::OpenFailed { id, errno: 5 },
        }),
{
    match failure {
        None => Reply::Opened { id },
        Some(Some(errno)) => Reply::OpenFailed { id, errno },
        Some(None) => Reply::OpenFailed { id, errno: 5 },
    }
}

/// Whether an entry of `/proc` is a process other than init.
pub open spec fn is_other_process(name: Seq<char>) -> bool {
    strings::parsed_number(name, u32::MAX as nat) matches Some(pid) && pid != 1
}

/// Processes are the names that are numbers, and init is the first of them.
pub proof fn law_processes_are_numbers(pid: nat, name: Seq<char>)
    requires
        pid <= u32::MAX,
    ensures
        is_other_process(strings::decimal(pid)) <==> pid != 1,
        (exists|i: int| 0 <= i < name.len() && !strings::is_digit(#[trigger] name[i]) && name[i]
            != '+') ==> !is_other_process(name),
        !is_other_process(Seq::empty()),
{
    strings::law_decimal_writes_the_number(pid);
    assert(strings::is_digit(strings::decimal(pid)[0]));
    if exists|i: int| 0 <= i < name.len() && !strings::is_digit(#[trigger] name[i]) && name[i] != '+' {
        let i = choose|i: int|
            0 <= i < name.len() && !strings::is_digit(#[trigger] name[i]) && name[i] != '+';
        if name[0] == '+' {
            assert(name.skip(1)[i - 1] == name[i]);
        }
    }
}

/// Whether init is the only process, from the names in `/proc`.
pub fn only_init_remains(names: &Vec<String>) -> (only: bool)
    ensures
        only == (forall|i: int| #![trigger names@[i]]
            0 <= i < names@.len() ==> !is_other_process(names@[i]@)),
{
    let mut i: usize = 0;
    while i < names.len()
        invariant
            i <= names@.len(),
            forall|k: int| #![trigger names@[k]] 0 <= k < i ==> !is_other_process(names@[k]@),
        decreases names@.len() - i,
    {
        match parse_number(names[i].as_str(), u32::MAX as u64) {
            Some(pid) => {
                if pid != 1 {
                    assert(is_other_process(names@[i as int]@));
                    return false;
                }
            },
            None => {},
        }
        i += 1;
    }
    true
}

/// Directories that are made before a file is opened.
pub open spec fn dirs_before_open(path: Seq<char>, mode: OpenMode) -> Option<Seq<char>> {
    match mode {
        OpenMode::Write { create_parents: true } => paths::parent_of(path),
        _ => None,
    }
}

/// The directory of a file is made only for writing and only where that is asked for.
pub proof fn law_directories_are_made_where_asked(
    names: Seq<Seq<char>>,
    last: Seq<char>,
    mode: OpenMode,
)
    requires
        forall|i: int| #![trigger names[i]] 0 <= i < names.len() ==> paths::is_plain_name(names[i]),
        paths::is_plain_name(last),
    ensures
        dirs_before_open(seq!['/'] + strings::join(names.push(last), seq!['/']), mode) == if mode
            == (OpenMode::Write { create_parents: true }) {
            Some(seq!['/'] + strings::join(names, seq!['/']))
        } else {
            None
        },
{
    paths::law_the_parent_is_all_but_the_last_name(names, last);
}

/// The directory to make before a path is opened, where one is asked for.
pub fn directory_to_make(path: &str, mode: OpenMode) -> (dir: Option<String>)
    ensures
        option_view(dir) == dirs_before_open(path@, mode),
{
    match mode {
        OpenMode::Write { create_parents } => if create_parents {
            parent(path)
        } else {
            None
        },
        _ => None,
    }
}

// ---- Programs ----

/// The directories where programs are looked for.
pub open spec fn search_path(env: Seq<(Seq<char>, Seq<char>)>) -> Seq<char> {
    match sandbox::value_of(env, "PATH"@, 0) {
        Some(path) => path,
        None => "/usr/bin:/bin"@,
    }
}

/// Where a program may be: as given where it names a directory, else in each directory of the
/// search path.
pub open spec fn places_to_look(program: Seq<char>, path: Seq<char>) -> Seq<Seq<char>> {
    strings::split_on(path, ':').map_values(|dir: Seq<char>| paths::joined(dir, program))
}

/// A program is looked for in each directory of the search path, in order, under its own name; and
/// without a search path, in the usual two.
pub proof fn law_programs_are_looked_for_along_the_path(
    program: Seq<char>,
    dirs: Seq<Seq<char>>,
    env: Seq<(Seq<char>, Seq<char>)>,
)
    requires
        program.len() > 0 && !program.contains('/'),
        dirs.len() > 0,
        forall|i: int| #![trigger dirs[i]]
            0 <= i < dirs.len() ==> dirs[i].len() > 0 && dirs[i].last() != '/' && !dirs[i].contains(
                ':',
            ),
    ensures
        places_to_look(program, strings::join(dirs, seq![':'])).len() == dirs.len(),
        forall|i: int| #![trigger dirs[i]]
            0 <= i < dirs.len() ==> places_to_look(program, strings::join(dirs, seq![':']))[i]
                == dirs[i] + seq!['/'] + program,
        env.len() > 0 && env[0].0 == "PATH"@ ==> search_path(env) == env[0].1,
        (forall|i: int| #![trigger env[i]] 0 <= i < env.len() ==> env[i].0 != "PATH"@)
            ==> search_path(env) == strings::join(seq!["/usr/bin"@, "/bin"@], seq![':']),
{
    strings::lemma_split_join(dirs, ':');
    assert(program.contains(program[0]));
    assert forall|i: int| #![trigger dirs[i]] 0 <= i < dirs.len() implies places_to_look(
        program,
        strings::join(dirs, seq![':']),
    )[i] == dirs[i] + seq!['/'] + program by {
        assert(dirs[i].push('/') + program =~= dirs[i] + seq!['/'] + program);
    }
    if forall|i: int| #![trigger env[i]] 0 <= i < env.len() ==> env[i].0 != "PATH"@ {
        sandbox::law_the_first_variable_counts(env, "PATH"@, Seq::empty(), Seq::empty());
        reveal_with_fuel(strings::join, 3);
        reveal_strlit("/usr/bin:/bin");
        reveal_strlit("/usr/bin");
        reveal_strlit("/bin");
        let usual = seq!["/usr/bin"@, "/bin"@];
        assert(usual.drop_last() =~= seq!["/usr/bin"@]);
        assert(strings::join(usual, seq![':']) =~= "/usr/bin:/bin"@);
    }
}

/// Where to find a program.
#[derive(Debug, PartialEq, Eq)]
pub enum Search {
    /// There, whether it can be run or not.
    Given(String),
    /// At the first of these that can be run.
    Among(Vec<String>),
}

pub fn find_program(program: &str, env: &Vec<(String, String)>) -> (search: Search)
    ensures
        if program@.contains('/') {
            search matches Search::Given(path) && path@ == program@
        } else {
            search matches Search::Among(places) && strings::texts(places@) == places_to_look(
                program@,
                search_path(sandbox::pairs(env@)),
            )
        },
{
    let name = chars_of(program);
    let mut k: usize = 0;
    while k < name.len()
        invariant
            k <= name@.len(),
            name@ == program@,
            forall|j: int| 0 <= j < k ==> name@[j] != '/',
        decreases name@.len() - k,
    {
        if name[k] == '/' {
            assert(program@[k as int] == '/');
            return Search::Given(program.to_owned());
        }
        k += 1;
    }
    assert(!program@.contains('/'));
    let path = match variable(env, "PATH") {
        Some(path) => path,
        None => "/usr/bin:/bin",
    };
    let chars = chars_of(path);
    let bounds = pieces_of(&chars, ':');
    let ghost dirs = strings::split_on(chars@, ':');
    let ghost wanted = places_to_look(program@, path@);
    let mut places: Vec<String> = Vec::new();
    let mut i: usize = 0;
    assert(strings::texts(places@) =~= wanted.take(0));
    while i < bounds.len()
        invariant
            i <= bounds@.len(),
            chars@ == path@,
            strings::are_bounds(bounds@, chars@, ':'),
            dirs == strings::split_on(chars@, ':'),
            wanted == places_to_look(program@, path@),
            strings::texts(places@) == wanted.take(i as int),
        decreases bounds@.len() - i,
    {
        let (start, stop) = bounds[i];
        let dir = text_between(&chars, start, stop);
        assert(dir@ == dirs[i as int]);
        let place = join(dir.as_str(), program);
        assert(place@ == wanted[i as int]);
        let ghost before = strings::texts(places@);
        places.push(place);
        assert(strings::texts(places@) =~= before.push(place@));
        i += 1;
        assert(strings::texts(places@) =~= wanted.take(i as int));
    }
    assert(wanted.take(i as int) =~= wanted);
    Search::Among(places)
}

/// The variables of an environment as a program gets them.
pub open spec fn assignments(env: Seq<(Seq<char>, Seq<char>)>) -> Seq<Seq<char>> {
    env.map_values(|pair: (Seq<char>, Seq<char>)| pair.0 + "="@ + pair.1)
}

/// A program gets every variable, in order, as its name, an equals sign and its value.
pub proof fn law_variables_are_handed_over(env: Seq<(Seq<char>, Seq<char>)>, i: int)
    requires
        0 <= i < env.len(),
    ensures
        assignments(env).len() == env.len(),
        assignments(env)[i] == env[i].0 + seq!['='] + env[i].1,
{
    reveal_strlit("=");
    assert("="@ =~= seq!['=']);
}

pub fn assigned(env: &Vec<(String, String)>) -> (vars: Vec<String>)
    ensures
        strings::texts(vars@) == assignments(sandbox::pairs(env@)),
{
    let ghost wanted = assignments(sandbox::pairs(env@));
    let mut vars: Vec<String> = Vec::new();
    let mut i: usize = 0;
    assert(strings::texts(vars@) =~= wanted.take(0));
    while i < env.len()
        invariant
            i <= env@.len(),
            wanted == assignments(sandbox::pairs(env@)),
            strings::texts(vars@) == wanted.take(i as int),
        decreases env@.len() - i,
    {
        let mut text = env[i].0.clone();
        text.append("=");
        text.append(env[i].1.as_str());
        assert(text@ == wanted[i as int]);
        let ghost before = strings::texts(vars@);
        vars.push(text);
        assert(strings::texts(vars@) =~= before.push(text@));
        i += 1;
        assert(strings::texts(vars@) =~= wanted.take(i as int));
    }
    assert(wanted.take(i as int) =~= wanted);
    vars
}

/// The program of a command, or what is wrong with it.
pub fn first_word(argv: &Vec<String>) -> (result: Result<String, String>)
    ensures
        argv@.len() == 0 ==> (result matches Err(error) && error@ == "empty command"@),
        argv@.len() > 0 ==> (result matches Ok(first) && first@ == argv@[0]@),
{
    if argv.len() == 0 {
        Err("empty command".to_owned())
    } else {
        Ok(argv[0].clone())
    }
}

pub fn not_found(program: &str) -> (error: String)
    ensures
        error@ == program@ + ": command not found"@,
{
    let mut error = program.to_owned();
    error.append(": command not found");
    error
}

/// What the child reported: the stage at which it failed, and the text of its error.
pub open spec fn stage_error(
    stage: u8,
    program: Seq<char>,
    cwd: Seq<char>,
    errno: Seq<char>,
) -> Seq<char> {
    if stage == 0x63 {
        "Working directory does not exist: "@ + cwd
    } else {
        program + ": "@ + errno
    }
}

/// A child that could not enter its directory tells the directory; any other failure tells the
/// program and the error.
pub proof fn law_a_failed_start_tells_what_failed(
    stage: u8,
    program: Seq<char>,
    cwd: Seq<char>,
    errno: Seq<char>,
)
    ensures
        stage == 99 ==> stage_error(stage, program, cwd, errno)
            == "Working directory does not exist: "@ + cwd,
        stage != 99 ==> stage_error(stage, program, cwd, errno) == program + ": "@ + errno,
{
}

pub fn spawn_failure(stage: u8, program: &str, cwd: &str, errno: &str) -> (error: String)
    ensures
        error@ == stage_error(stage, program@, cwd@, errno@),
{
    if stage == 0x63 {
        let mut error = "Working directory does not exist: ".to_owned();
        error.append(cwd);
        error
    } else {
        let mut error = program.to_owned();
        error.append(": ");
        error.append(errno);
        error
    }
}

/// Every command that was started is told to have exited once: while it runs it is known, and
/// its exit forgets it.
pub proof fn law_commands_exit_once(commands: Map<i32, u64>, pid: i32, id: u64)
    ensures
        commands.insert(pid, id).dom().contains(pid),
        !commands.insert(pid, id).remove(pid).dom().contains(pid),
        !commands.dom().contains(pid) ==> commands.insert(pid, id).remove(pid) == commands,
{
    if !commands.dom().contains(pid) {
        assert(commands.insert(pid, id).remove(pid) =~= commands);
    }
}

} // verus!
