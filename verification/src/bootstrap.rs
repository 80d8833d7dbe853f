//! Process entry. On the host the harness claims a delegated cgroup subtree, then forks. The
//! child becomes the harness inside a new user and mount namespace: the invoking user is root
//! there, and the user's subordinate id range backs ids 1..=65536, so agent images keep their
//! file ownership. The parent stays behind only to forward signals, clean up the cgroups and
//! exit with the harness's status.

use crate::strings;
use crate::strings::{chars_of, lines_of, number, parse_number, pieces_of, same, text_between};
use vstd::prelude::*;

verus! {

/// The argument with which the same binary becomes a sandbox init.
pub const INIT_ARG: &'static str = "__erisharness-sandbox-init";

/// Ids available inside the harness namespace: root plus one subordinate range.
pub const ID_COUNT: u32 = 65537;

/// The ids of the invoking user, and where its subordinate ranges begin.
#[derive(Clone, Copy, Debug, PartialEq, Eq, Structural)]
pub struct SubordinateIds {
    pub uid: u32,
    pub gid: u32,
    pub subuid: u32,
    pub subgid: u32,
}

/// Where the range of a line begins, where the line gives the user a range large enough.
pub open spec fn range_in(line: Seq<char>, user: Seq<char>, uid: Seq<char>) -> Option<nat> {
    let parts = strings::split_on(line, ':');
    if parts.len() < 3 || !(parts[0] == user || parts[0] == uid) {
        None
    } else {
        match strings::parsed_number(parts[2], u32::MAX as nat) {
            Some(count) => if count >= ID_COUNT - 1 {
                strings::parsed_number(parts[1], u32::MAX as nat)
            } else {
                None
            },
            None => None,
        }
    }
}

/// A line gives a range to the user that it names, by name or by id, where the range is large
/// enough: it begins where the line says.
pub proof fn law_a_line_gives_its_owner_a_range(
    owner: Seq<char>,
    start: nat,
    count: nat,
    user: Seq<char>,
    uid: Seq<char>,
)
    requires
        !owner.contains(':'),
        start <= u32::MAX,
        count <= u32::MAX,
    ensures
        range_in(
            owner + ":"@ + strings::decimal(start) + ":"@ + strings::decimal(count),
            user,
            uid,
        ) == if (owner == user || owner == uid) && count >= 65536 {
            Some(start)
        } else {
            None
        },
{
    let first = strings::decimal(start);
    let second = strings::decimal(count);
    let line = owner + ":"@ + first + ":"@ + second;
    reveal_strlit(":");
    strings::law_decimal_writes_the_number(start);
    strings::law_decimal_writes_the_number(count);
    assert(!first.contains(':')) by {
        if first.contains(':') {
            let i = choose|i: int| 0 <= i < first.len() && first[i] == ':';
            assert(strings::is_digit(first[i]));
        }
    }
    assert(!second.contains(':')) by {
        if second.contains(':') {
            let i = choose|i: int| 0 <= i < second.len() && second[i] == ':';
            assert(strings::is_digit(second[i]));
        }
    }
    let parts = seq![owner, first, second];
    reveal_with_fuel(strings::join, 4);
    assert(parts.drop_last() =~= seq![owner, first]);
    assert(seq![owner, first].drop_last() =~= seq![owner]);
    assert(strings::join(parts, seq![':']) =~= line);
    strings::lemma_split_join(parts, ':');
    assert(strings::is_digit(first[0]) && strings::is_digit(second[0]));
    assert(strings::parsed_number(first, u32::MAX as nat) == Some(start));
    assert(strings::parsed_number(second, u32::MAX as nat) == Some(count));
}

/// The first line that gives a user a range decides.
pub proof fn law_the_first_range_counts(
    before: Seq<Seq<char>>,
    line: Seq<char>,
    after: Seq<Seq<char>>,
    user: Seq<char>,
    uid: Seq<char>,
)
    requires
        forall|i: int| #![trigger before[i]]
            0 <= i < before.len() ==> range_in(before[i], user, uid) is None,
    ensures
        first_range(before, user, uid, 0) is None,
        range_in(line, user, uid) is Some ==> first_range(
            before + seq![line] + after,
            user,
            uid,
            0,
        ) == range_in(line, user, uid),
{
    let all = before + seq![line] + after;
    lemma_no_range(before, before, user, uid, 0);
    lemma_no_range(all, before, user, uid, 0);
    assert(all[before.len() as int] == line);
}

proof fn lemma_no_range(
    lines: Seq<Seq<char>>,
    before: Seq<Seq<char>>,
    user: Seq<char>,
    uid: Seq<char>,
    from: int,
)
    requires
        0 <= from <= before.len() <= lines.len(),
        forall|i: int| #![trigger before[i]]
            0 <= i < before.len() ==> before[i] == lines[i] && range_in(before[i], user, uid) is None,
    ensures
        first_range(lines, user, uid, from) == first_range(lines, user, uid, before.len() as int),
    decreases before.len() - from,
{
    if from < before.len() {
        assert(before[from] == lines[from]);
        lemma_no_range(lines, before, user, uid, from + 1);
    }
}

/// The first range among lines.
pub open spec fn first_range(
    lines: Seq<Seq<char>>,
    user: Seq<char>,
    uid: Seq<char>,
    from: int,
) -> Option<nat>
    decreases lines.len() - from,
{
    if from < 0 || from >= lines.len() {
        None
    } else {
        match range_in(lines[from], user, uid) {
            Some(start) => Some(start),
            None => first_range(lines, user, uid, from + 1),
        }
    }
}

pub open spec fn no_range_error(file: Seq<char>, user: Seq<char>) -> Seq<char> {
    file + " has no range of "@ + strings::decimal((ID_COUNT - 1) as nat) + " ids for "@ + user
}

fn piece(chars: &Vec<char>, bounds: &Vec<(usize, usize)>, i: usize) -> (text: String)
    requires
        strings::are_bounds(bounds@, chars@, ':'),
        i < bounds@.len(),
    ensures
        text@ == strings::split_on(chars@, ':')[i as int],
{
    let (start, stop) = bounds[i];
    text_between(chars, start, stop)
}

fn range_of(line: &str, user: &str, uid: &str) -> (start: Option<u32>)
    ensures
        match start {
            Some(start) => range_in(line@, user@, uid@) == Some(start as nat),
            None => range_in(line@, user@, uid@) is None,
        },
{
    let chars = chars_of(line);
    let bounds = pieces_of(&chars, ':');
    if bounds.len() < 3 {
        return None;
    }
    let owner = piece(&chars, &bounds, 0);
    if !(same(owner.as_str(), user) || same(owner.as_str(), uid)) {
        return None;
    }
    let count = piece(&chars, &bounds, 2);
    match parse_number(count.as_str(), u32::MAX as u64) {
        Some(count) => if count >= (ID_COUNT - 1) as u64 {
            let start = piece(&chars, &bounds, 1);
            match parse_number(start.as_str(), u32::MAX as u64) {
                Some(start) => Some(start as u32),
                None => None,
            }
        } else {
            None
        },
        None => None,
    }
}

/// Where the subordinate range of a user begins, from what a file of ranges holds.
pub fn find_range(text: &str, file: &str, user: &str, uid: u32) -> (result: Result<u32, String>)
    ensures
        match first_range(strings::lines(text@), user@, strings::decimal(uid as nat), 0) {
            Some(start) => result matches Ok(found) && found == start,
            None => result matches Err(error) && error@ == no_range_error(file@, user@),
        },
{
    let found = lines_of(text);
    let uid_text = number(uid as u128);
    let ghost lines = strings::lines(text@);
    assert(lines.len() == found@.len());
    let mut next: usize = 0;
    while next < found.len()
        invariant
            next <= found@.len(),
            lines == strings::lines(text@),
            strings::texts(found@) == lines,
            uid_text@ == strings::decimal(uid as nat),
            first_range(lines, user@, uid_text@, 0) == first_range(
                lines,
                user@,
                uid_text@,
                next as int,
            ),
        decreases found@.len() - next,
    {
        assert(lines[next as int] == found@[next as int]@);
        match range_of(found[next].as_str(), user, uid_text.as_str()) {
            Some(start) => {
                return Ok(start);
            },
            None => {},
        }
        next += 1;
    }
    let mut error = file.to_owned();
    error.append(" has no range of ");
    error.append(number((ID_COUNT - 1) as u128).as_str());
    error.append(" ids for ");
    error.append(user);
    Err(error)
}

/// The arguments with which an id map is set: id 0 is the user's own, and the ids after it are
/// the subordinate range.
pub open spec fn map_arguments(pid: nat, own: nat, sub: nat) -> Seq<Seq<char>> {
    seq![
        strings::decimal(pid),
        "0"@,
        strings::decimal(own),
        "1"@,
        "1"@,
        strings::decimal(sub),
        strings::decimal((ID_COUNT - 1) as nat),
    ]
}

/// Root inside is the user outside, and the ids after it are the user's subordinate range.
pub proof fn law_root_is_the_user(pid: nat, own: nat, sub: nat)
    ensures
        map_arguments(pid, own, sub).len() == 7,
        map_arguments(pid, own, sub)[0] == strings::decimal(pid),
        map_arguments(pid, own, sub).subrange(1, 4) == seq!["0"@, strings::decimal(own), "1"@],
        map_arguments(pid, own, sub).subrange(4, 7) == seq![
            "1"@,
            strings::decimal(sub),
            strings::decimal(65536),
        ],
{
}

/// The arguments of the tool that maps ids.
pub fn map_ids(pid: u32, own: u32, sub: u32) -> (arguments: Vec<String>)
    ensures
        strings::texts(arguments@) == map_arguments(pid as nat, own as nat, sub as nat),
{
    let arguments: Vec<String> = vec![
        number(pid as u128),
        "0".to_owned(),
        number(own as u128),
        "1".to_owned(),
        "1".to_owned(),
        number(sub as u128),
        number((ID_COUNT - 1) as u128),
    ];
    assert(strings::texts(arguments@) =~= map_arguments(pid as nat, own as nat, sub as nat));
    arguments
}

/// How the harness process ended.
#[derive(Clone, Copy, Debug, PartialEq, Eq, Structural)]
pub enum Ended {
    Exited { code: i32 },
    Signaled { signal: i32 },
    Otherwise,
}

/// The status that the parent exits with: the harness's own, where its ids were mapped.
pub fn exit_code(mapped: bool, ended: Ended) -> (code: i32)
    requires
        ended matches Ended::Signaled { signal } ==> signal <= i32::MAX - 128,
    ensures
        code == (if !mapped {
            1
        } else {
            match ended {
                Ended::Exited { code } => code as int,
                Ended::Signaled { signal } => 128 + signal,
                Ended::Otherwise => 1,
            }
        }),
{
    if !mapped {
        return 1;
    }
    match ended {
        Ended::Exited { code } => code,
        Ended::Signaled { signal } => 128 + signal,
        Ended::Otherwise => 1,
    }
}

} // verus!
