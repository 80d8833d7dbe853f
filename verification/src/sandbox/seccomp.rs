//! Syscall filter for agent processes. It denies what containers usually deny to the
//! unprivileged: creating namespaces, mounting, loading kernel code, and the interfaces with the
//! worst kernel history. Everything else is allowed, so ordinary programs behave as they do on a
//! normal Linux host.

use crate::sandbox;
use crate::sandbox::launch::{
    CLONE_NEWCGROUP, CLONE_NEWIPC, CLONE_NEWNET, CLONE_NEWNS, CLONE_NEWPID, CLONE_NEWTIME,
    CLONE_NEWUSER, CLONE_NEWUTS,
};
use crate::strings;
use crate::strings::same;
use crate::tools::errors;
use seccompiler::{
    BackendError, BpfProgram, SeccompAction, SeccompCmpArgLen, SeccompCmpOp, SeccompCondition,
    SeccompFilter, SeccompRule, TargetArch,
};
use std::collections::BTreeMap;
use vstd::prelude::*;

verus! {

pub const EPERM: u32 = 1;

pub const ENOSYS: u32 = 38;

// ---- Filters ----

/// How much of an argument is compared.
#[derive(Clone, Copy, Debug, PartialEq, Eq, Structural)]
pub enum Width {
    /// The lower four bytes.
    Dword,
    /// All eight bytes.
    Qword,
}

/// How an argument is compared with a value.
#[derive(Clone, Copy, Debug, PartialEq, Eq, Structural)]
pub enum Operator {
    Eq,
    /// Equal in the bits of a mask.
    MaskedEq(u64),
}

/// What one argument of a call has to be.
#[derive(Clone, Copy, Debug, PartialEq, Eq, Structural)]
pub struct Condition {
    /// The index of the argument.
    pub argument: u8,
    pub width: Width,
    pub operator: Operator,
    pub value: u64,
}

/// What a filter does about a call.
#[derive(Clone, Copy, Debug, PartialEq, Eq, Structural)]
pub enum Action {
    Allow,
    /// The call fails with this error.
    Errno(u32),
}

/// A call that a filter matches: where one of the lists of conditions holds throughout, or
/// always, where there is no list.
#[derive(Clone, Debug, PartialEq, Eq)]
pub struct Rule {
    pub syscall: u32,
    pub any: Vec<Vec<Condition>>,
}

#[verifier::ext_equal]
pub ghost struct RuleView {
    pub syscall: u32,
    pub any: Seq<Seq<Condition>>,
}

impl View for Rule {
    type V = RuleView;

    open spec fn view(&self) -> RuleView {
        RuleView { syscall: self.syscall, any: condition_lists(self.any@) }
    }
}

pub open spec fn condition_lists(any: Seq<Vec<Condition>>) -> Seq<Seq<Condition>> {
    any.map_values(|all: Vec<Condition>| all@)
}

pub open spec fn rule_views(rules: Seq<Rule>) -> Seq<RuleView> {
    rules.map_values(|rule: Rule| rule@)
}

/// The rules of one filter, what it does about the calls that they match, and what about others.
#[derive(Clone, Debug, PartialEq, Eq)]
pub struct Filter {
    pub rules: Vec<Rule>,
    pub matched: Action,
    pub otherwise: Action,
}

/// No call has two rules.
pub open spec fn one_rule_per_call(rules: Seq<RuleView>) -> bool {
    forall|i: int, j: int| #![trigger rules[i], rules[j]]
        0 <= i < j < rules.len() ==> rules[i].syscall != rules[j].syscall
}

/// What is compared of a number.
pub open spec fn compared(width: Width, number: u64) -> u64 {
    match width {
        Width::Dword => number & 0xFFFF_FFFF,
        Width::Qword => number,
    }
}

pub open spec fn holds(condition: Condition, arguments: Seq<u64>) -> bool {
    let argument = compared(condition.width, arguments[condition.argument as int]);
    let value = compared(condition.width, condition.value);
    match condition.operator {
        Operator::Eq => argument == value,
        Operator::MaskedEq(mask) => argument & mask == value & mask,
    }
}

pub open spec fn all_hold(all: Seq<Condition>, arguments: Seq<u64>) -> bool {
    forall|i: int| #![trigger all[i]] 0 <= i < all.len() ==> holds(all[i], arguments)
}

/// Whether a rule matches a call with these arguments.
pub open spec fn matches_call(rule: RuleView, syscall: u32, arguments: Seq<u64>) -> bool {
    rule.syscall == syscall && (rule.any.len() == 0 || exists|i: int| #![trigger rule.any[i]]
        0 <= i < rule.any.len() && all_hold(rule.any[i], arguments))
}

/// Whether some rule matches a call.
pub open spec fn some_match(rules: Seq<RuleView>, syscall: u32, arguments: Seq<u64>) -> bool {
    exists|i: int| #![trigger rules[i]]
        0 <= i < rules.len() && matches_call(rules[i], syscall, arguments)
}

/// What a filter does about a call.
pub open spec fn verdict(filter: Filter, syscall: u32, arguments: Seq<u64>) -> Action {
    if some_match(rule_views(filter.rules@), syscall, arguments) {
        filter.matched
    } else {
        filter.otherwise
    }
}

// ---- The filters of agents ----

/// The names of the calls that are denied whatever their arguments.
pub open spec fn denied_names(arch: Seq<char>) -> Seq<Seq<char>> {
    let everywhere = seq![
        "unshare"@,
        "setns"@,
        "mount"@,
        "umount2"@,
        "pivot_root"@,
        "open_tree"@,
        "move_mount"@,
        "fsopen"@,
        "fsconfig"@,
        "fsmount"@,
        "fspick"@,
        "mount_setattr"@,
        "bpf"@,
        "perf_event_open"@,
        "io_uring_setup"@,
        "io_uring_enter"@,
        "io_uring_register"@,
        "keyctl"@,
        "add_key"@,
        "request_key"@,
        "userfaultfd"@,
        "kexec_load"@,
        "kexec_file_load"@,
        "init_module"@,
        "finit_module"@,
        "delete_module"@,
        "open_by_handle_at"@,
        "name_to_handle_at"@,
        "acct"@,
        "swapon"@,
        "swapoff"@,
        "reboot"@,
        "syslog"@,
        "quotactl"@,
    ];
    if arch == "x86_64"@ {
        everywhere.push("iopl"@).push("ioperm"@)
    } else {
        everywhere
    }
}

/// On every architecture agents are denied namespaces, mounts, tracing of the kernel, its rings and
/// keys, faults handled in user space, kernels and modules, files by handle, accounting, swapping,
/// rebooting, its log and quotas; and where ports can be had, those too.
pub proof fn law_what_agents_are_denied_everywhere(arch: Seq<char>)
    ensures
        denied_names(arch).contains("unshare"@),
        denied_names(arch).contains("setns"@),
        denied_names(arch).contains("mount"@),
        denied_names(arch).contains("umount2"@),
        denied_names(arch).contains("pivot_root"@),
        denied_names(arch).contains("open_tree"@),
        denied_names(arch).contains("move_mount"@),
        denied_names(arch).contains("fsopen"@),
        denied_names(arch).contains("fsconfig"@),
        denied_names(arch).contains("fsmount"@),
        denied_names(arch).contains("fspick"@),
        denied_names(arch).contains("mount_setattr"@),
        denied_names(arch).contains("bpf"@),
        denied_names(arch).contains("perf_event_open"@),
        denied_names(arch).contains("io_uring_setup"@),
        denied_names(arch).contains("io_uring_enter"@),
        denied_names(arch).contains("io_uring_register"@),
        denied_names(arch).contains("keyctl"@),
        denied_names(arch).contains("add_key"@),
        denied_names(arch).contains("request_key"@),
        denied_names(arch).contains("userfaultfd"@),
        denied_names(arch).contains("kexec_load"@),
        denied_names(arch).contains("kexec_file_load"@),
        denied_names(arch).contains("init_module"@),
        denied_names(arch).contains("finit_module"@),
        denied_names(arch).contains("delete_module"@),
        denied_names(arch).contains("open_by_handle_at"@),
        denied_names(arch).contains("name_to_handle_at"@),
        denied_names(arch).contains("acct"@),
        denied_names(arch).contains("swapon"@),
        denied_names(arch).contains("swapoff"@),
        denied_names(arch).contains("reboot"@),
        denied_names(arch).contains("syslog"@),
        denied_names(arch).contains("quotactl"@),
        arch == "x86_64"@ ==> denied_names(arch).contains("iopl"@) && denied_names(arch).contains(
            "ioperm"@,
        ),
        denied_names(arch).len() == if arch == "x86_64"@ {
            36int
        } else {
            34int
        },
{
    let names = denied_names(arch);
    assert(names[0] == "unshare"@);
    assert(names[1] == "setns"@);
    assert(names[2] == "mount"@);
    assert(names[3] == "umount2"@);
    assert(names[4] == "pivot_root"@);
    assert(names[5] == "open_tree"@);
    assert(names[6] == "move_mount"@);
    assert(names[7] == "fsopen"@);
    assert(names[8] == "fsconfig"@);
    assert(names[9] == "fsmount"@);
    assert(names[10] == "fspick"@);
    assert(names[11] == "mount_setattr"@);
    assert(names[12] == "bpf"@);
    assert(names[13] == "perf_event_open"@);
    assert(names[14] == "io_uring_setup"@);
    assert(names[15] == "io_uring_enter"@);
    assert(names[16] == "io_uring_register"@);
    assert(names[17] == "keyctl"@);
    assert(names[18] == "add_key"@);
    assert(names[19] == "request_key"@);
    assert(names[20] == "userfaultfd"@);
    assert(names[21] == "kexec_load"@);
    assert(names[22] == "kexec_file_load"@);
    assert(names[23] == "init_module"@);
    assert(names[24] == "finit_module"@);
    assert(names[25] == "delete_module"@);
    assert(names[26] == "open_by_handle_at"@);
    assert(names[27] == "name_to_handle_at"@);
    assert(names[28] == "acct"@);
    assert(names[29] == "swapon"@);
    assert(names[30] == "swapoff"@);
    assert(names[31] == "reboot"@);
    assert(names[32] == "syslog"@);
    assert(names[33] == "quotactl"@);
    if arch == "x86_64"@ {
        assert(names[34] == "iopl"@);
        assert(names[35] == "ioperm"@);
    }
}

/// The names of the calls that are denied whatever their arguments, on an architecture.
pub fn denied_calls(arch: &str) -> (names: Vec<String>)
    ensures
        strings::texts(names@) == denied_names(arch@),
{
    let mut names: Vec<String> = vec![
        "unshare".to_owned(),
        "setns".to_owned(),
        "mount".to_owned(),
        "umount2".to_owned(),
        "pivot_root".to_owned(),
        "open_tree".to_owned(),
        "move_mount".to_owned(),
        "fsopen".to_owned(),
        "fsconfig".to_owned(),
        "fsmount".to_owned(),
        "fspick".to_owned(),
        "mount_setattr".to_owned(),
        "bpf".to_owned(),
        "perf_event_open".to_owned(),
        "io_uring_setup".to_owned(),
        "io_uring_enter".to_owned(),
        "io_uring_register".to_owned(),
        "keyctl".to_owned(),
        "add_key".to_owned(),
        "request_key".to_owned(),
        "userfaultfd".to_owned(),
        "kexec_load".to_owned(),
        "kexec_file_load".to_owned(),
        "init_module".to_owned(),
        "finit_module".to_owned(),
        "delete_module".to_owned(),
        "open_by_handle_at".to_owned(),
        "name_to_handle_at".to_owned(),
        "acct".to_owned(),
        "swapon".to_owned(),
        "swapoff".to_owned(),
        "reboot".to_owned(),
        "syslog".to_owned(),
        "quotactl".to_owned(),
    ];
    if same(arch, "x86_64") {
        names.push("iopl".to_owned());
        names.push("ioperm".to_owned());
    }
    assert(strings::texts(names@) =~= denied_names(arch@));
    names
}

/// The flags that create a namespace.
pub open spec fn namespace_flags() -> Seq<u64> {
    seq![
        CLONE_NEWUSER,
        CLONE_NEWNS,
        CLONE_NEWPID,
        CLONE_NEWNET,
        CLONE_NEWIPC,
        CLONE_NEWUTS,
        CLONE_NEWCGROUP,
        CLONE_NEWTIME,
    ]
}

/// Whether an argument has all bits of a mask set.
pub open spec fn has_bits(argument: u64, mask: u64) -> bool {
    argument & mask == mask
}

/// The first argument has all bits of a flag set.
pub open spec fn flag_condition(flag: u64) -> Condition {
    Condition {
        argument: 0,
        width: Width::Qword,
        operator: Operator::MaskedEq(flag),
        value: flag,
    }
}

/// Whether agents are denied a call: one of the listed ones, or a `clone` that creates a
/// namespace.
pub open spec fn is_denied(
    denied: Seq<u32>,
    clone: u32,
    syscall: u32,
    arguments: Seq<u64>,
) -> bool {
    if syscall == clone {
        exists|i: int| #![trigger namespace_flags()[i]]
            0 <= i < namespace_flags().len() && has_bits(arguments[0], namespace_flags()[i])
    } else {
        denied.contains(syscall)
    }
}

/// A call that is matched whatever its arguments.
pub open spec fn always_rule(syscall: u32) -> RuleView {
    RuleView { syscall, any: Seq::empty() }
}

/// `clone` with a flag that creates a namespace.
pub open spec fn namespace_rule(clone: u32) -> RuleView {
    RuleView {
        syscall: clone,
        any: namespace_flags().map_values(|flag: u64| seq![flag_condition(flag)]),
    }
}

/// The listed calls, each once, but for `clone`, which has a rule of its own.
pub open spec fn listed(denied: Seq<u32>, clone: u32) -> Seq<u32>
    decreases denied.len(),
{
    if denied.len() == 0 {
        Seq::empty()
    } else {
        let before = listed(denied.drop_last(), clone);
        if denied.last() == clone || before.contains(denied.last()) {
            before
        } else {
            before.push(denied.last())
        }
    }
}

/// Calls that are denied whatever their arguments, and `clone` with a flag that creates a
/// namespace.
pub open spec fn denied_rules(denied: Seq<u32>, clone: u32) -> Seq<RuleView> {
    listed(denied, clone).map_values(|syscall: u32| always_rule(syscall)).push(
        namespace_rule(clone),
    )
}

/// What is listed: every denied call but `clone`, and none twice.
proof fn lemma_listed(denied: Seq<u32>, clone: u32)
    ensures
        listed(denied, clone).no_duplicates(),
        forall|syscall: u32| #[trigger]
            listed(denied, clone).contains(syscall) <==> denied.contains(syscall) && syscall
                != clone,
    decreases denied.len(),
{
    if denied.len() > 0 {
        let rest = denied.drop_last();
        let before = listed(rest, clone);
        let now = listed(denied, clone);
        lemma_listed(rest, clone);
        assert forall|syscall: u32| #[trigger]
            now.contains(syscall) <==> denied.contains(syscall) && syscall != clone by {
            assert(before.contains(syscall) <==> rest.contains(syscall) && syscall != clone);
            if rest.contains(syscall) {
                let k = choose|k: int| 0 <= k < rest.len() && rest[k] == syscall;
                assert(denied[k] == syscall);
            }
            if denied.contains(syscall) && syscall != denied.last() {
                let k = choose|k: int| 0 <= k < denied.len() && denied[k] == syscall;
                assert(rest[k] == syscall);
            }
            assert(denied[denied.len() - 1] == denied.last());
            if before.contains(syscall) {
                let k = choose|k: int| 0 <= k < before.len() && before[k] == syscall;
                assert(now[k] == syscall);
            }
            if now.contains(syscall) && !before.contains(syscall) {
                let k = choose|k: int| 0 <= k < now.len() && now[k] == syscall;
                assert(k == before.len());
            }
            if denied.last() != clone && !before.contains(denied.last()) {
                assert(now[before.len() as int] == denied.last());
            }
        }
    } else {
        assert forall|syscall: u32| !(#[trigger] listed(denied, clone).contains(syscall)) by {}
    }
}

/// No call has two rules in what agents are denied.
proof fn lemma_denied_once(denied: Seq<u32>, clone: u32)
    ensures
        one_rule_per_call(denied_rules(denied, clone)),
{
    let all = listed(denied, clone);
    let rules = denied_rules(denied, clone);
    lemma_listed(denied, clone);
    assert forall|i: int, j: int| #![trigger rules[i], rules[j]]
        0 <= i < j < rules.len() implies rules[i].syscall != rules[j].syscall by {
        assert(rules[i] == always_rule(all[i]));
        assert(all.contains(all[i]));
        if j < all.len() {
            assert(rules[j] == always_rule(all[j]));
        }
    }
}

fn always(syscall: u32) -> (rule: Rule)
    ensures
        rule@ == always_rule(syscall),
{
    let rule = Rule { syscall, any: Vec::new() };
    assert(condition_lists(rule.any@) =~= Seq::<Seq<Condition>>::empty());
    rule
}

fn with_flag(flag: u64) -> (all: Vec<Condition>)
    ensures
        all@ == seq![flag_condition(flag)],
{
    let all: Vec<Condition> = vec![
        Condition {
            argument: 0,
            width: Width::Qword,
            operator: Operator::MaskedEq(flag),
            value: flag,
        },
    ];
    assert(all@ =~= seq![flag_condition(flag)]);
    all
}

fn namespaces(clone: u32) -> (rule: Rule)
    ensures
        rule@ == namespace_rule(clone),
{
    let any: Vec<Vec<Condition>> = vec![
        with_flag(CLONE_NEWUSER),
        with_flag(CLONE_NEWNS),
        with_flag(CLONE_NEWPID),
        with_flag(CLONE_NEWNET),
        with_flag(CLONE_NEWIPC),
        with_flag(CLONE_NEWUTS),
        with_flag(CLONE_NEWCGROUP),
        with_flag(CLONE_NEWTIME),
    ];
    assert(condition_lists(any@) =~= namespace_rule(clone).any);
    Rule { syscall: clone, any }
}

fn is_among(calls: &Vec<u32>, syscall: u32) -> (found: bool)
    ensures
        found == calls@.contains(syscall),
{
    let mut i: usize = 0;
    while i < calls.len()
        invariant
            i <= calls@.len(),
            forall|k: int| #![trigger calls@[k]] 0 <= k < i ==> calls@[k] != syscall,
        decreases calls@.len() - i,
    {
        if calls[i] == syscall {
            assert(calls@.contains(syscall));
            return true;
        }
        i += 1;
    }
    false
}

/// The two filters of agent processes, from the numbers of the calls. `clone3` passes its flags
/// through memory a filter cannot read; that it does not exist makes libc fall back to `clone`,
/// where the flags are visible.
pub fn agent_filters(denied: &Vec<u32>, clone: u32, clone3: u32) -> (both: (Filter, Filter))
    ensures
        rule_views(both.0.rules@) == denied_rules(denied@, clone),
        both.0.matched == Action::Errno(EPERM),
        both.0.otherwise == Action::Allow,
        rule_views(both.1.rules@) == seq![always_rule(clone3)],
        both.1.matched == Action::Errno(ENOSYS),
        both.1.otherwise == Action::Allow,
        one_rule_per_call(rule_views(both.0.rules@)),
        one_rule_per_call(rule_views(both.1.rules@)),
        forall|syscall: u32, arguments: Seq<u64>| #[trigger]
            verdict(both.0, syscall, arguments) == (if is_denied(
                denied@,
                clone,
                syscall,
                arguments,
            ) {
                Action::Errno(EPERM)
            } else {
                Action::Allow
            }),
        forall|syscall: u32, arguments: Seq<u64>| #[trigger]
            verdict(both.1, syscall, arguments) == (if syscall == clone3 {
                Action::Errno(ENOSYS)
            } else {
                Action::Allow
            }),
{
    let mut calls: Vec<u32> = Vec::new();
    let mut rules: Vec<Rule> = Vec::new();
    let mut i: usize = 0;
    assert(denied@.take(0) =~= Seq::<u32>::empty());
    assert(calls@ =~= listed(denied@.take(0), clone));
    assert(rule_views(rules@) =~= calls@.map_values(|syscall: u32| always_rule(syscall)));
    while i < denied.len()
        invariant
            i <= denied@.len(),
            calls@ == listed(denied@.take(i as int), clone),
            rule_views(rules@) == calls@.map_values(|syscall: u32| always_rule(syscall)),
        decreases denied@.len() - i,
    {
        let syscall: u32 = denied[i];
        let ghost now = denied@.take(i + 1);
        assert(now.drop_last() =~= denied@.take(i as int));
        assert(now.last() == syscall);
        if syscall != clone && !is_among(&calls, syscall) {
            let rule = always(syscall);
            let ghost before = rule_views(rules@);
            let ghost held = calls@;
            calls.push(syscall);
            rules.push(rule);
            proof {
                assert(rule_views(rules@) =~= before.push(rule@));
                assert(rule_views(rules@) =~= held.push(syscall).map_values(
                    |syscall: u32| always_rule(syscall),
                ));
            }
        }
        i += 1;
    }
    assert(denied@.take(i as int) =~= denied@);
    let ghost before = rule_views(rules@);
    let last = namespaces(clone);
    rules.push(last);
    let fallback: Vec<Rule> = vec![always(clone3)];
    proof {
        assert(rule_views(rules@) =~= before.push(last@));
        assert(rule_views(fallback@) =~= seq![always_rule(clone3)]);
        lemma_denied_once(denied@, clone);
        assert forall|syscall: u32, arguments: Seq<u64>| #[trigger]
            some_match(rule_views(rules@), syscall, arguments) == is_denied(
                denied@,
                clone,
                syscall,
                arguments,
            ) by {
            law_filter_denies(denied@, clone, syscall, arguments);
        }
        assert forall|syscall: u32, arguments: Seq<u64>| #[trigger]
            some_match(rule_views(fallback@), syscall, arguments) == (syscall == clone3) by {
            let one = rule_views(fallback@);
            assert(one[0] == always_rule(clone3));
            if syscall == clone3 {
                assert(matches_call(one[0], syscall, arguments));
            }
        }
    }
    (
        Filter { rules, matched: Action::Errno(EPERM), otherwise: Action::Allow },
        Filter { rules: fallback, matched: Action::Errno(ENOSYS), otherwise: Action::Allow },
    )
}

/// A `clone` is refused exactly where a flag of its first argument would create a namespace, of
/// users, mounts, processes, networks, messages, names, control groups or time.
pub proof fn law_no_namespace_is_created(denied: Seq<u32>, clone: u32, arguments: Seq<u64>)
    ensures
        some_match(denied_rules(denied, clone), clone, arguments) <==> arguments[0] & 0x7E02_0080
            != 0,
{
    law_filter_denies(denied, clone, clone, arguments);
    let flags = namespace_flags();
    let first = arguments[0];
    assert(first & 0x7E02_0080 != 0 <==> (first & 0x1000_0000 == 0x1000_0000 || first & 0x2_0000
        == 0x2_0000 || first & 0x2000_0000 == 0x2000_0000 || first & 0x4000_0000 == 0x4000_0000
        || first & 0x800_0000 == 0x800_0000 || first & 0x400_0000 == 0x400_0000 || first
        & 0x200_0000 == 0x200_0000 || first & 0x80 == 0x80)) by (bit_vector);
    assert(flags[0] == 0x1000_0000);
    assert(flags[1] == 0x2_0000);
    assert(flags[2] == 0x2000_0000);
    assert(flags[3] == 0x4000_0000);
    assert(flags[4] == 0x800_0000);
    assert(flags[5] == 0x400_0000);
    assert(flags[6] == 0x200_0000);
    assert(flags[7] == 0x80);
}

/// A filter of agents refuses what it matches, with its error, and allows everything else.
pub proof fn law_a_filter_refuses_what_it_matches(
    filter: Filter,
    denied: Seq<u32>,
    clone: u32,
    syscall: u32,
    arguments: Seq<u64>,
)
    requires
        rule_views(filter.rules@) == denied_rules(denied, clone),
        filter.matched == Action::Errno(1),
        filter.otherwise == Action::Allow,
        syscall != clone,
    ensures
        verdict(filter, syscall, arguments) == if denied.contains(syscall) {
            Action::Errno(1)
        } else {
            Action::Allow
        },
        verdict(filter, clone, arguments) == if arguments[0] & 0x7E02_0080 != 0 {
            Action::Errno(1)
        } else {
            Action::Allow
        },
{
    law_listed_calls_are_refused(denied, clone, syscall, arguments);
    law_no_namespace_is_created(denied, clone, arguments);
}

/// Any other call is refused exactly where it is listed, whatever its arguments.
pub proof fn law_listed_calls_are_refused(
    denied: Seq<u32>,
    clone: u32,
    syscall: u32,
    arguments: Seq<u64>,
)
    requires
        syscall != clone,
    ensures
        some_match(denied_rules(denied, clone), syscall, arguments) <==> denied.contains(syscall),
{
    law_filter_denies(denied, clone, syscall, arguments);
}

/// Every denied call is matched, and creating a namespace is; a `clone` with none of the flags is
/// not.
pub proof fn law_filter_denies(denied: Seq<u32>, clone: u32, syscall: u32, arguments: Seq<u64>)
    ensures
        some_match(denied_rules(denied, clone), syscall, arguments) <==> is_denied(
            denied,
            clone,
            syscall,
            arguments,
        ),
{
    let all = listed(denied, clone);
    let rules = denied_rules(denied, clone);
    let last = rules[all.len() as int];
    let flags = namespace_flags();
    lemma_listed(denied, clone);
    assert(last == namespace_rule(clone));
    assert(last.any.len() == flags.len() > 0);
    assert forall|i: int| #![trigger flags[i]] 0 <= i < flags.len() implies (all_hold(
        last.any[i],
        arguments,
    ) <==> has_bits(arguments[0], flags[i])) by {
        let flag = flags[i];
        assert(last.any[i] == seq![flag_condition(flag)]);
        assert(last.any[i][0] == flag_condition(flag));
        assert(flag & flag == flag) by (bit_vector);
        assert(holds(flag_condition(flag), arguments) <==> has_bits(arguments[0], flag));
    }
    if syscall != clone && denied.contains(syscall) {
        assert(all.contains(syscall));
        let k = choose|k: int| 0 <= k < all.len() && all[k] == syscall;
        assert(rules[k] == always_rule(syscall));
        assert(matches_call(rules[k], syscall, arguments));
    }
    if syscall == clone && exists|i: int| #![trigger flags[i]]
        0 <= i < flags.len() && has_bits(arguments[0], flags[i]) {
        let i = choose|i: int| #![trigger flags[i]]
            0 <= i < flags.len() && has_bits(arguments[0], flags[i]);
        assert(all_hold(last.any[i], arguments));
        assert(matches_call(last, syscall, arguments));
    }
    if some_match(rules, syscall, arguments) {
        let k = choose|k: int| #![trigger rules[k]]
            0 <= k < rules.len() && matches_call(rules[k], syscall, arguments);
        if k < all.len() {
            assert(rules[k] == always_rule(all[k]));
            assert(all.contains(syscall));
        } else {
            let i = choose|i: int| #![trigger last.any[i]]
                0 <= i < last.any.len() && all_hold(last.any[i], arguments);
            assert(has_bits(arguments[0], flags[i]));
        }
    }
}

// ---- Compiling ----

/// The error of a compilation, opaque here.
#[verifier::external_type_specification]
#[verifier::external_body]
pub struct ExBackendError(BackendError);

/// A condition as `seccompiler` has it, opaque here.
#[verifier::external_type_specification]
#[verifier::external_body]
pub struct ExSeccompCondition(SeccompCondition);

/// Conditions that hold together as `seccompiler` has them, opaque here.
#[verifier::external_type_specification]
#[verifier::external_body]
pub struct ExSeccompRule(SeccompRule);

/// An action as `seccompiler` has it, opaque here.
#[verifier::external_type_specification]
#[verifier::external_body]
pub struct ExSeccompAction(SeccompAction);

/// `SeccompCondition::new` of a condition's parts, one for one. A call has six arguments; a
/// condition on any other is refused.
#[verifier::external_body]
fn to_condition(condition: &Condition) -> (result: Result<SeccompCondition, BackendError>)
    ensures
        result is Ok <==> condition.argument <= 5,
{
    let width = match condition.width {
        Width::Dword => SeccompCmpArgLen::Dword,
        Width::Qword => SeccompCmpArgLen::Qword,
    };
    let operator = match condition.operator {
        Operator::Eq => SeccompCmpOp::Eq,
        Operator::MaskedEq(mask) => SeccompCmpOp::MaskedEq(mask),
    };
    SeccompCondition::new(condition.argument, width, operator, condition.value)
}

/// `SeccompRule::new` of conditions, one for one. No conditions are refused, as is one that
/// cannot be made.
#[verifier::external_body]
fn to_rule(all: &Vec<Condition>) -> (result: Result<SeccompRule, BackendError>)
    ensures
        result is Ok <==> all@.len() > 0 && forall|i: int| #![trigger all@[i]]
            0 <= i < all@.len() ==> all@[i].argument <= 5,
{
    SeccompRule::new(all.iter().map(to_condition).collect::<Result<_, _>>()?)
}

/// The `SeccompAction` that an action is.
#[verifier::external_body]
fn to_action(action: Action) -> SeccompAction {
    match action {
        Action::Allow => SeccompAction::Allow,
        Action::Errno(errno) => SeccompAction::Errno(errno),
    }
}

/// The steps of a compiled filter: an instruction, where it jumps on true and on false, and its
/// operand; or what is wrong with the rules.
pub uninterp spec fn compiled(
    rules: Seq<RuleView>,
    matched: Action,
    otherwise: Action,
    arch: Seq<char>,
) -> Result<Seq<(u16, u8, u8, u32)>, Seq<char>>;

/// `seccompiler`'s `SeccompFilter`, compiled: the program that takes the one action about the
/// calls that the rules match and the other about all else, on the given architecture. Nothing is
/// said here of the instructions, nor of which rules are refused.
#[verifier::external_body]
fn compile(filter: &Filter, arch: &str) -> (result: Result<Vec<(u16, u8, u8, u32)>, String>)
    requires
        one_rule_per_call(rule_views(filter.rules@)),
    ensures
        is_compiled(
            result,
            compiled(rule_views(filter.rules@), filter.matched, filter.otherwise, arch@),
        ),
{
    let build = || {
        let mut table = BTreeMap::new();
        for rule in &filter.rules {
            let any = rule.any.iter().map(to_rule).collect::<Result<_, _>>()?;
            table.insert(i64::from(rule.syscall), any);
        }
        let (matched, otherwise) = (to_action(filter.matched), to_action(filter.otherwise));
        SeccompFilter::new(table, otherwise, matched, TargetArch::try_from(arch)?)?.try_into()
    };
    let program: BpfProgram = build().map_err(|error: BackendError| error.to_string())?;
    Ok(program.iter().map(|step| (step.code, step.jt, step.jf, step.k)).collect())
}

/// Whether a result is what a compilation gives.
pub open spec fn is_compiled(
    result: Result<Vec<(u16, u8, u8, u32)>, String>,
    wanted: Result<Seq<(u16, u8, u8, u32)>, Seq<char>>,
) -> bool {
    match wanted {
        Ok(steps) => result matches Ok(program) && program@ == steps,
        Err(wrong) => result matches Err(error) && error@ == wrong,
    }
}

/// The architectures that filters are compiled for.
pub open spec fn is_arch(name: Seq<char>) -> bool {
    name == "x86_64"@ || name == "aarch64"@ || name == "riscv64"@
}

pub open spec fn wrong_arch(arch: Seq<char>) -> Seq<char> {
    "InvalidTargetArch("@ + sandbox::quoted(arch) + ")"@
}

/// `seccompiler`'s `TargetArch::try_from`: filters are compiled for three architectures, whose
/// names may be in any case. The error, in debug format, quotes any other name.
#[verifier::external_body]
fn check_arch(arch: &str) -> (result: Result<(), String>)
    ensures
        result is Ok <==> is_arch(errors::lowercased(arch@)),
        is_arch(arch@) ==> result is Ok,
        result matches Err(error) ==> error@ == wrong_arch(arch@),
{
    TargetArch::try_from(arch).map(|_| ()).map_err(|error| format!("{error:?}"))
}

/// Compiles a filter for an architecture.
pub fn program(filter: &Filter, arch: &str) -> (result: Result<Vec<(u16, u8, u8, u32)>, String>)
    requires
        one_rule_per_call(rule_views(filter.rules@)),
    ensures
        is_arch(arch@) || is_arch(errors::lowercased(arch@)) ==> is_compiled(
            result,
            compiled(rule_views(filter.rules@), filter.matched, filter.otherwise, arch@),
        ),
        !is_arch(errors::lowercased(arch@)) ==> (result matches Err(error) && error@ == wrong_arch(
            arch@,
        )),
{
    match check_arch(arch) {
        Ok(()) => compile(filter, arch),
        Err(error) => Err(error),
    }
}

} // verus!
