//! cgroup v2 placement. The harness claims a subtree it owns:
//!
//! ```text
//! <delegated>/erisharness-<pid>/     controllers enabled for children
//!     harness/                       the harness process itself
//!     agents/<sandbox id>/           one leaf per live sandbox, with its limits
//! ```
//!
//! `<delegated>` is the process's own cgroup when the harness is alone in it (a systemd unit
//! with `Delegate=yes`), otherwise the nearest ancestor the user owns with the memory, pids
//! and cpu controllers available, such as `user@<uid>.service`.

use crate::paths;
use crate::paths::{join, parts, within};
use crate::strings;
use crate::strings::{
    chars_of, is_at, lines_of, number, parse_number, same, text_between, words_of,
};
use crate::tools::path;
use vstd::prelude::*;

verus! {

pub const MOUNT: &'static str = "/sys/fs/cgroup";

/// The subtree that a harness owns.
#[derive(Clone, Debug, PartialEq, Eq)]
pub struct Cgroups {
    pub root: String,
    pub created_root: bool,
}

impl Cgroups {
    /// Where the sandboxes' leaves are.
    pub fn agents(&self) -> (dir: String)
        ensures
            dir@ == paths::joined(self.root@, "agents"@),
    {
        join(self.root.as_str(), "agents")
    }

    /// Where the harness process itself is.
    pub fn harness(&self) -> (dir: String)
        ensures
            dir@ == paths::joined(self.root@, "harness"@),
    {
        join(self.root.as_str(), "harness")
    }
}

// ---- Claiming ----

/// The subtree of a process, below a delegated directory.
pub open spec fn root_of(parent: Seq<char>, pid: nat) -> Seq<char> {
    paths::joined(parent, "erisharness-"@ + strings::decimal(pid))
}

/// The harness takes its own cgroup over where it is alone in it and may write it; otherwise it
/// makes a subtree of its own below `parent`.
pub fn claimed(own: &str, alone: bool, writable: bool, parent: Option<&str>, pid: u32) -> (result:
    Result<Cgroups, String>)
    ensures
        if alone && writable {
            result matches Ok(cgroups) && cgroups.root@ == own@ && !cgroups.created_root
        } else {
            match parent {
                Some(parent) => result matches Ok(cgroups) && cgroups.root@ == root_of(
                    parent@,
                    pid as nat,
                ) && cgroups.created_root,
                None => result matches Err(error) && error@ == "no writable cgroup above "@ + own@
                    + " delegates [\"memory\", \"pids\", \"cpu\"]"@,
            }
        },
{
    if alone && writable {
        return Ok(Cgroups { root: own.to_owned(), created_root: false });
    }
    match parent {
        Some(parent) => {
            let mut name = "erisharness-".to_owned();
            name.append(number(pid as u128).as_str());
            Ok(Cgroups { root: join(parent, name.as_str()), created_root: true })
        },
        None => {
            let mut error = "no writable cgroup above ".to_owned();
            error.append(own);
            error.append(" delegates [\"memory\", \"pids\", \"cpu\"]");
            Err(error)
        },
    }
}

/// Whether a process is the only one in a cgroup.
pub fn alone(procs: &str, pid: u32) -> (alone: bool)
    ensures
        alone == (strings::words(procs@) == seq![strings::decimal(pid as nat)]),
{
    let found = words_of(procs);
    let wanted = number(pid as u128);
    let ghost words = strings::words(procs@);
    assert(words.len() == found@.len());
    if found.len() != 1 {
        return false;
    }
    assert(words[0] == found@[0]@);
    let alone = same(found[0].as_str(), wanted.as_str());
    if alone {
        assert(words =~= seq![strings::decimal(pid as nat)]);
    } else {
        assert(seq![strings::decimal(pid as nat)][0] == wanted@);
    }
    alone
}

/// `text` without the slashes that it begins with.
pub open spec fn without_slashes(text: Seq<char>) -> Seq<char>
    decreases text.len(),
{
    if text.len() > 0 && text[0] == '/' {
        without_slashes(text.skip(1))
    } else {
        text
    }
}

pub fn trim_slashes(text: &str) -> (rest: String)
    ensures
        rest@ == without_slashes(text@),
{
    let chars = chars_of(text);
    let mut from: usize = 0;
    assert(chars@.skip(0) =~= text@);
    while from < chars.len() && chars[from] == '/'
        invariant
            from <= chars@.len(),
            without_slashes(text@) == without_slashes(chars@.skip(from as int)),
        decreases chars@.len() - from,
    {
        assert(chars@.skip(from as int)[0] == '/');
        assert(chars@.skip(from as int).skip(1) =~= chars@.skip(from + 1));
        from += 1;
    }
    let rest = text_between(&chars, from, chars.len());
    proof {
        assert(rest@ =~= chars@.skip(from as int));
        if from < chars@.len() {
            assert(chars@.skip(from as int)[0] == chars@[from as int]);
        }
    }
    rest
}

/// The first line that names a cgroup of the unified hierarchy.
pub open spec fn unified_line(lines: Seq<Seq<char>>, from: int) -> Option<Seq<char>>
    decreases lines.len() - from,
{
    if from < 0 || from >= lines.len() {
        None
    } else if strings::stands_at(lines[from], "0::"@, 0) {
        Some(lines[from].skip("0::"@.len() as int))
    } else {
        unified_line(lines, from + 1)
    }
}

/// The cgroup of a process, from what the kernel says of it.
pub fn own_cgroup(text: &str) -> (result: Result<String, String>)
    ensures
        match unified_line(strings::lines(text@), 0) {
            Some(path) => result matches Ok(dir) && dir@ == paths::joined(
                MOUNT@,
                without_slashes(path),
            ),
            None => result matches Err(error) && error@ == "cgroup v2 is required"@,
        },
{
    let found = lines_of(text);
    let prefix = chars_of("0::");
    let ghost lines = strings::lines(text@);
    let mut next: usize = 0;
    assert(lines.len() == found@.len());
    while next < found.len()
        invariant
            next <= found@.len(),
            prefix@ == "0::"@,
            lines == strings::lines(text@),
            strings::texts(found@) == lines,
            unified_line(lines, 0) == unified_line(lines, next as int),
        decreases found@.len() - next,
    {
        assert(lines[next as int] == found@[next as int]@);
        let line = chars_of(found[next].as_str());
        if is_at(&line, &prefix, 0) {
            let path = text_between(&line, prefix.len(), line.len());
            assert(path@ =~= lines[next as int].skip("0::"@.len() as int));
            let rest = trim_slashes(path.as_str());
            return Ok(join(MOUNT, rest.as_str()));
        }
        next += 1;
    }
    Err("cgroup v2 is required".to_owned())
}

/// The cgroup of a process is what follows `0::` on the first line that begins so.
pub proof fn law_the_unified_line_names_the_cgroup(
    before: Seq<Seq<char>>,
    path: Seq<char>,
    after: Seq<Seq<char>>,
)
    requires
        forall|i: int| #![trigger before[i]]
            0 <= i < before.len() ==> !strings::stands_at(before[i], "0::"@, 0),
    ensures
        unified_line(before + seq!["0::"@ + path] + after, 0) == Some(path),
        unified_line(before, 0) is None,
{
    let line = "0::"@ + path;
    let all = before + seq![line] + after;
    lemma_no_unified_line(before, before, 0);
    lemma_no_unified_line(all, before, 0);
    assert(all[before.len() as int] == line);
    assert(line.subrange(0, "0::"@.len() as int) =~= "0::"@);
    assert(line.skip("0::"@.len() as int) =~= path);
}

proof fn lemma_no_unified_line(lines: Seq<Seq<char>>, before: Seq<Seq<char>>, from: int)
    requires
        0 <= from <= before.len() <= lines.len(),
        forall|i: int| #![trigger before[i]]
            0 <= i < before.len() ==> before[i] == lines[i] && !strings::stands_at(
                before[i],
                "0::"@,
                0,
            ),
    ensures
        unified_line(lines, from) == unified_line(lines, before.len() as int),
    decreases before.len() - from,
{
    if from < before.len() {
        assert(before[from] == lines[from]);
        lemma_no_unified_line(lines, before, from + 1);
    }
}

/// The directories above a path with these components, nearest first, down to those with more
/// than `floor` components.
pub open spec fn above(components: Seq<Seq<char>>, floor: nat) -> Seq<Seq<char>>
    decreases components.len(),
{
    if components.len() <= floor + 1 {
        Seq::empty()
    } else {
        let parent = components.drop_last();
        seq![path::absolute(parent)] + above(parent, floor)
    }
}

/// The directories above `own` that may be delegated: those below the mount point.
pub open spec fn ancestors(own: Seq<char>) -> Seq<Seq<char>> {
    if paths::is_within(own, MOUNT@) {
        above(paths::components(own), paths::components(MOUNT@).len())
    } else {
        Seq::empty()
    }
}

/// The directories where a harness may make its subtree are those above its own cgroup, nearest
/// first, and the mount point is not among them.
pub proof fn law_candidates_are_the_directories_above(names: Seq<Seq<char>>)
    requires
        names.len() > 0,
        forall|i: int| #![trigger names[i]] 0 <= i < names.len() ==> paths::is_plain_name(names[i]),
    ensures
        ({
            let mount = seq!["sys"@, "fs"@, "cgroup"@];
            let found = ancestors(seq!['/'] + strings::join(mount + names, seq!['/']));
            &&& found.len() == names.len() - 1
            &&& forall|i: int| #![trigger found[i]]
                0 <= i < found.len() ==> found[i] == seq!['/'] + strings::join(
                    mount + names.take(names.len() - 1 - i),
                    seq!['/'],
                )
        }),
{
    let mount = seq!["sys"@, "fs"@, "cgroup"@];
    let all = mount + names;
    reveal_strlit("sys");
    reveal_strlit("fs");
    reveal_strlit("cgroup");
    reveal_strlit("/sys/fs/cgroup");
    assert forall|i: int| #![trigger mount[i]] 0 <= i < mount.len() implies paths::is_plain_name(
        mount[i],
    ) by {
        assert(mount[0] == "sys"@);
        assert(mount[1] == "fs"@);
        assert(mount[2] == "cgroup"@);
    }
    assert forall|i: int| #![trigger all[i]] 0 <= i < all.len() implies paths::is_plain_name(
        all[i],
    ) by {
        if i < 3 {
            assert(all[i] == mount[i]);
        } else {
            assert(all[i] == names[i - 3]);
        }
    }
    assert(seq!['/'] + strings::join(mount, seq!['/']) =~= MOUNT@) by {
        reveal_with_fuel(strings::join, 4);
        assert(mount.drop_last() =~= seq!["sys"@, "fs"@]);
        assert(seq!["sys"@, "fs"@].drop_last() =~= seq!["sys"@]);
    }
    paths::law_components_are_the_names(all);
    paths::law_components_are_the_names(mount);
    paths::law_a_path_is_within_what_it_goes_on_from(all, mount);
    lemma_above(mount, names);
}

proof fn lemma_above(mount: Seq<Seq<char>>, names: Seq<Seq<char>>)
    requires
        names.len() > 0,
    ensures
        above(mount + names, mount.len()).len() == names.len() - 1,
        forall|i: int| #![trigger above(mount + names, mount.len())[i]]
            0 <= i < names.len() - 1 ==> above(mount + names, mount.len())[i] == path::absolute(
                mount + names.take(names.len() - 1 - i),
            ),
    decreases names.len(),
{
    let all = mount + names;
    if names.len() > 1 {
        let rest = names.drop_last();
        assert(all.drop_last() =~= mount + rest);
        lemma_above(mount, rest);
        let found = above(all, mount.len());
        assert forall|i: int| #![trigger found[i]] 0 <= i < names.len() - 1 implies found[i]
            == path::absolute(mount + names.take(names.len() - 1 - i)) by {
            if i == 0 {
                assert(names.take(names.len() - 1) =~= rest);
            } else {
                assert(found[i] == above(mount + rest, mount.len())[i - 1]);
                assert(rest.take(rest.len() - 1 - (i - 1)) =~= names.take(names.len() - 1 - i));
            }
        }
    }
}

/// The absolute path through the first `count` parts.
fn absolute_of(parts: &Vec<String>, count: usize) -> (whole: String)
    requires
        count <= parts@.len(),
    ensures
        whole@ == path::absolute(strings::texts(parts@).take(count as int)),
{
    let ghost names = strings::texts(parts@);
    let mut whole = String::new();
    whole.push('/');
    let mut i: usize = 0;
    assert(whole@ =~= path::absolute(names.take(0)));
    while i < count
        invariant
            i <= count <= parts@.len(),
            names == strings::texts(parts@),
            whole@ == path::absolute(names.take(i as int)),
        decreases count - i,
    {
        let ghost now = names.take(i + 1);
        assert(now.drop_last() =~= names.take(i as int));
        assert(now.last() == parts@[i as int]@);
        if i > 0 {
            whole.push('/');
        }
        whole.append(parts[i].as_str());
        assert(whole@ =~= path::absolute(now));
        i += 1;
    }
    whole
}

/// The directories that the harness may look at for a delegated one, nearest first.
pub fn candidates(own: &str) -> (dirs: Vec<String>)
    ensures
        strings::texts(dirs@) == ancestors(own@),
{
    let mut dirs: Vec<String> = Vec::new();
    assert(strings::texts(dirs@) =~= Seq::<Seq<char>>::empty());
    if !within(own, MOUNT) {
        return dirs;
    }
    let own_parts = parts(own);
    let mount_parts = parts(MOUNT);
    let floor: usize = mount_parts.len();
    let ghost all = paths::components(own@);
    let ghost bottom = paths::components(MOUNT@).len();
    assert(own_parts@.len() == all.len());
    assert(floor == bottom);
    let mut count: usize = own_parts.len();
    assert(all.take(count as int) =~= all);
    assert(strings::texts(dirs@) + above(all, bottom) =~= above(all, bottom));
    while count > floor && count - floor > 1
        invariant
            count <= own_parts@.len(),
            floor == bottom,
            all == strings::texts(own_parts@),
            strings::texts(dirs@) + above(all.take(count as int), bottom) == above(all, bottom),
        decreases count,
    {
        let ghost before = strings::texts(dirs@);
        let ghost now = all.take(count as int);
        assert(now.drop_last() =~= all.take(count - 1));
        let dir = absolute_of(&own_parts, count - 1);
        dirs.push(dir);
        proof {
            assert(strings::texts(dirs@) =~= before.push(dir@));
            assert(before + above(now, bottom) =~= before.push(dir@) + above(
                all.take(count - 1),
                bottom,
            ));
        }
        count -= 1;
    }
    assert(strings::texts(dirs@) + Seq::<Seq<char>>::empty() =~= strings::texts(dirs@));
    dirs
}

/// Whether every controller that sandboxes need is enabled.
pub open spec fn has_all(enabled: Seq<char>) -> bool {
    let words = strings::words(enabled);
    words.contains("memory"@) && words.contains("pids"@) && words.contains("cpu"@)
}

/// The controllers that sandboxes need are those for memory, processes and time, in any order and
/// among any others.
pub proof fn law_all_controllers_are_needed(names: Seq<Seq<char>>)
    requires
        forall|i: int| #![trigger names[i]]
            0 <= i < names.len() ==> names[i].len() > 0 && forall|k: int| #![trigger names[i][k]]
                0 <= k < names[i].len() ==> !strings::is_white_space(names[i][k]),
    ensures
        has_all(strings::join(names, seq![' '])) <==> names.contains("memory"@) && names.contains(
            "pids"@,
        ) && names.contains("cpu"@),
{
    lemma_words_of_names(names);
}

proof fn lemma_words_of_names(names: Seq<Seq<char>>)
    requires
        forall|i: int| #![trigger names[i]]
            0 <= i < names.len() ==> names[i].len() > 0 && forall|k: int| #![trigger names[i][k]]
                0 <= k < names[i].len() ==> !strings::is_white_space(names[i][k]),
    ensures
        strings::words(strings::join(names, seq![' '])) == names,
    decreases names.len(),
{
    let space = seq![' '];
    if names.len() == 0 {
        assert(strings::join(names, space) =~= Seq::<char>::empty());
        strings::law_white_space_parts_words(Seq::empty(), ' ', Seq::empty());
        assert(names =~= Seq::<Seq<char>>::empty());
    } else {
        let rest = names.drop_last();
        let last = names.last();
        assert(last == names[names.len() - 1]);
        assert forall|i: int| #![trigger rest[i]] 0 <= i < rest.len() implies rest[i].len() > 0
            && forall|k: int| #![trigger rest[i][k]]
            0 <= k < rest[i].len() ==> !strings::is_white_space(rest[i][k]) by {
            assert(rest[i] == names[i]);
        }
        lemma_words_of_names(rest);
        strings::law_white_space_parts_words(last, ' ', Seq::empty());
        assert(rest.push(last) =~= names);
        if rest.len() == 0 {
            assert(strings::join(names, space) == last);
            assert(seq![last] =~= names);
        } else {
            strings::law_white_space_parts_words(strings::join(rest, space), ' ', last);
            assert(strings::join(names, space) == strings::join(rest, space) + space + last);
            assert(rest + seq![last] =~= names);
        }
    }
}

fn has_word(words: &Vec<String>, word: &str) -> (found: bool)
    ensures
        found == strings::texts(words@).contains(word@),
{
    let ghost all = strings::texts(words@);
    let mut i: usize = 0;
    while i < words.len()
        invariant
            i <= words@.len(),
            all == strings::texts(words@),
            forall|k: int| #![trigger all[k]] 0 <= k < i ==> all[k] != word@,
        decreases words@.len() - i,
    {
        assert(all[i as int] == words@[i as int]@);
        if same(words[i].as_str(), word) {
            assert(all.contains(word@));
            return true;
        }
        i += 1;
    }
    false
}

pub fn has_controllers(enabled: &str) -> (all: bool)
    ensures
        all == has_all(enabled@),
{
    let words = words_of(enabled);
    has_word(&words, "memory") && has_word(&words, "pids") && has_word(&words, "cpu")
}

/// What is written to enable the controllers for children.
pub fn controllers_request() -> (request: &'static str)
    ensures
        request@ == "+memory +pids +cpu"@,
{
    "+memory +pids +cpu"
}

/// The process that a subtree belongs to, from its name.
pub open spec fn owner_of(name: Seq<char>) -> Option<nat> {
    if strings::stands_at(name, "erisharness-"@, 0) {
        strings::parsed_number(name.skip("erisharness-"@.len() as int), u32::MAX as nat)
    } else {
        None
    }
}

/// A subtree tells which process made it.
pub proof fn law_a_subtree_names_its_owner(parent: Seq<char>, pid: nat)
    requires
        pid <= u32::MAX,
        parent.len() > 0 && parent.last() != '/',
    ensures
        root_of(parent, pid) == parent + "/erisharness-"@ + strings::decimal(pid),
        owner_of("erisharness-"@ + strings::decimal(pid)) == Some(pid),
{
    reveal_strlit("erisharness-");
    reveal_strlit("/erisharness-");
    let digits = strings::decimal(pid);
    let name = "erisharness-"@ + digits;
    strings::law_decimal_writes_the_number(pid);
    assert(name.subrange(0, "erisharness-"@.len() as int) =~= "erisharness-"@);
    assert(name.skip("erisharness-"@.len() as int) =~= digits);
    assert(strings::is_digit(digits[0]));
    assert(root_of(parent, pid) =~= parent + "/erisharness-"@ + digits);
}

/// The harness that left a subtree with this name.
pub fn stale_owner(name: &str) -> (pid: Option<u32>)
    ensures
        match pid {
            Some(pid) => owner_of(name@) == Some(pid as nat),
            None => owner_of(name@) is None,
        },
{
    let chars = chars_of(name);
    let prefix = chars_of("erisharness-");
    if !is_at(&chars, &prefix, 0) {
        return None;
    }
    let digits = text_between(&chars, prefix.len(), chars.len());
    assert(digits@ =~= name@.skip("erisharness-"@.len() as int));
    match parse_number(digits.as_str(), u32::MAX as u64) {
        Some(pid) => Some(pid as u32),
        None => None,
    }
}

// ---- Limits ----

/// The bit of a 64-bit float that is its sign.
pub const SIGN: u64 = 0x8000_0000_0000_0000;

/// The bits of the float beyond which there are no numbers, without the sign.
pub const INFINITY: u64 = 0x7FF0_0000_0000_0000;

/// Whether two 64-bit floats, given by their bits, are equal: the same number, the two zeros
/// among them, and nothing that is no number.
pub open spec fn same_float(a: u64, b: u64) -> bool {
    &&& a % SIGN <= INFINITY
    &&& b % SIGN <= INFINITY
    &&& a == b || (a % SIGN == 0 && b % SIGN == 0)
}

/// CPU bandwidth in cores, such as one and a half.
#[derive(Clone, Copy, Debug)]
pub struct Cores {
    /// The bits of the number as a 64-bit float.
    pub bits: u64,
    /// The number in whole hundred-thousandths of a core.
    pub quota: u64,
}

impl PartialEq for Cores {
    fn eq(&self, other: &Self) -> (equal: bool) {
        self.bits % SIGN <= INFINITY && other.bits % SIGN <= INFINITY && (self.bits == other.bits
            || (self.bits % SIGN == 0 && other.bits % SIGN == 0))
    }
}

impl vstd::std_specs::cmp::PartialEqSpecImpl for Cores {
    open spec fn obeys_eq_spec() -> bool {
        true
    }

    open spec fn eq_spec(&self, other: &Self) -> bool {
        same_float(self.bits, other.bits)
    }
}

/// Resource limits for one sandbox. `None` leaves a resource unlimited.
#[derive(Clone, Copy, Debug, PartialEq)]
pub struct Limits {
    pub memory_bytes: Option<u64>,
    pub pids: Option<u64>,
    pub cpus: Option<Cores>,
}

pub open spec fn same_limits(a: Limits, b: Limits) -> bool {
    &&& a.memory_bytes == b.memory_bytes
    &&& a.pids == b.pids
    &&& match (a.cpus, b.cpus) {
        (Some(a), Some(b)) => same_float(a.bits, b.bits),
        (None, None) => true,
        _ => false,
    }
}

impl Default for Limits {
    fn default() -> (limits: Self)
        ensures
            limits == (Limits { memory_bytes: None, pids: None, cpus: None }),
    {
        Limits { memory_bytes: None, pids: None, cpus: None }
    }
}

pub open spec fn limit_text(limit: Option<u64>) -> Seq<char> {
    match limit {
        Some(limit) => strings::decimal(limit as nat),
        None => "max"@,
    }
}

/// CPU time per period of a tenth of a second, a hundredth of it at least.
pub open spec fn cpu_text(cpus: Option<Cores>) -> Seq<char> {
    limit_text(
        match cpus {
            Some(cores) => Some(
                if cores.quota < 1000 {
                    1000u64
                } else {
                    cores.quota
                },
            ),
            None => None,
        },
    ) + " 100000"@
}

/// The files of a cgroup that set its limits, and what is written to them. Without a swap
/// limit, a limited sandbox swaps instead of meeting its limit.
pub open spec fn limit_files(limits: Limits, has_swap: bool) -> Seq<(Seq<char>, Seq<char>)> {
    let memory = seq![("memory.max"@, limit_text(limits.memory_bytes))];
    let swap = if limits.memory_bytes is Some && has_swap {
        seq![("memory.swap.max"@, "0"@)]
    } else {
        Seq::empty()
    };
    memory + swap + seq![("pids.max"@, limit_text(limits.pids)), ("cpu.max"@, cpu_text(limits.cpus))]
}

pub open spec fn file_views(files: Seq<(String, String)>) -> Seq<(Seq<char>, Seq<char>)> {
    files.map_values(|file: (String, String)| (file.0@, file.1@))
}

/// A limit is written to the file of its own resource, and a resource without one is set free.
pub proof fn law_each_limit_is_written_to_its_file(limits: Limits, has_swap: bool)
    ensures
        ({
            let files = limit_files(limits, has_swap);
            let swapless = limits.memory_bytes is Some && has_swap;
            let last = files.len() - 1;
            &&& files.len() == if swapless {
                4int
            } else {
                3int
            }
            &&& files[0].0 == "memory.max"@ && files[last - 1].0 == "pids.max"@ && files[last].0
                == "cpu.max"@
            &&& limits.memory_bytes matches Some(bytes) ==> files[0].1 == strings::decimal(
                bytes as nat,
            )
            &&& limits.memory_bytes is None ==> files[0].1 == "max"@
            &&& swapless ==> files[1] == ("memory.swap.max"@, "0"@)
            &&& limits.pids matches Some(count) ==> files[last - 1].1 == strings::decimal(
                count as nat,
            )
            &&& limits.pids is None ==> files[last - 1].1 == "max"@
            &&& limits.cpus matches Some(cores) ==> files[last].1 == strings::decimal(
                if cores.quota < 1000 {
                    1000
                } else {
                    cores.quota as nat
                },
            ) + " 100000"@
            &&& limits.cpus is None ==> files[last].1 == "max"@ + " 100000"@
        }),
{
}

/// Floats that are numbers equal themselves, the two zeros equal each other, and what is no number
/// equals nothing.
pub proof fn law_floats_are_equal_as_numbers(a: u64, b: u64)
    ensures
        same_float(a, b) == same_float(b, a),
        same_float(a, a) <==> a % 0x8000_0000_0000_0000 <= 0x7FF0_0000_0000_0000,
        same_float(0, 0x8000_0000_0000_0000),
        same_float(a, b) && a % 0x8000_0000_0000_0000 != 0 ==> a == b,
        a % 0x8000_0000_0000_0000 > 0x7FF0_0000_0000_0000 ==> !same_float(a, b),
{
}

fn max_text(limit: Option<u64>) -> (text: String)
    ensures
        text@ == limit_text(limit),
{
    match limit {
        Some(limit) => number(limit as u128),
        None => "max".to_owned(),
    }
}

impl Limits {
    /// Whether two limits are equal.
    pub fn same_as(&self, other: &Limits) -> (equal: bool)
        ensures
            equal == same_limits(*self, *other),
    {
        let cpus = match (self.cpus, other.cpus) {
            (Some(a), Some(b)) => a == b,
            (None, None) => true,
            _ => false,
        };
        self.memory_bytes == other.memory_bytes && self.pids == other.pids && cpus
    }

    /// What to write to the files of a sandbox's cgroup, in order.
    pub fn apply(&self, has_swap: bool) -> (files: Vec<(String, String)>)
        ensures
            file_views(files@) == limit_files(*self, has_swap),
    {
        let mut files: Vec<(String, String)> = Vec::new();
        files.push(("memory.max".to_owned(), max_text(self.memory_bytes)));
        if self.memory_bytes.is_some() && has_swap {
            files.push(("memory.swap.max".to_owned(), "0".to_owned()));
        }
        files.push(("pids.max".to_owned(), max_text(self.pids)));
        let quota = match self.cpus {
            Some(cores) => Some(
                if cores.quota < 1000 {
                    1000u64
                } else {
                    cores.quota
                },
            ),
            None => None,
        };
        let mut cpu = max_text(quota);
        cpu.append(" 100000");
        files.push(("cpu.max".to_owned(), cpu));
        assert(file_views(files@) =~= limit_files(*self, has_swap));
        files
    }
}

} // verus!
