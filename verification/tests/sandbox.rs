use erisharness::bootstrap::{exit_code, find_range, map_ids, Ended};
use erisharness::cgroup::{
    alone, candidates, claimed, controllers_request, has_controllers, own_cgroup, stale_owner, Cgroups,
};
use erisharness::machine::{check_start, Direct, DirectSpec, Leader};
use erisharness::rootfs::import_arguments;
use erisharness::sandbox::init::{
    assigned, bind_mount, build_root, capability_words, directory_to_make, dropped_capabilities, find_program, first_word,
    inside, not_found, only_init_remains, opened, overlay_options, overlay_path, spawn_failure, system_mounts,
    wait_status, Commands, Search, Step, Todo,
};
use erisharness::sandbox::launch::{clone_flags, id_map};
use erisharness::sandbox::live::{
    after_asking, begin_stop, find_live, open_answer, route, setup_answer, spawn_answer, Answer, Drain, Found, Heard,
    Live, Next, Recipient, Stop,
};
use erisharness::sandbox::proto::{locate, pack, BindMount, OpenMode, Place, Reply, Request, INLINE_LIMIT};
use erisharness::sandbox::seccomp::{
    agent_filters, denied_calls, program, Action, Condition, Filter, Operator, Rule, Width,
};
use erisharness::sandbox::{
    check_removal, choose_sandbox, directories, killed, valid_id, variable, Bind, Choice, Cores, ExitStatus, Layer, Limits,
    Output, Sandbox, SandboxSpec,
};

fn cores(number: f64) -> Cores {
    Cores { bits: number.to_bits(), quota: (number * 100_000.0) as u64 }
}

fn spec() -> SandboxSpec {
    SandboxSpec {
        rootfs: "/image".into(),
        layers: vec![Layer { lower: "/project".into(), target: "/workspace".into() }],
        binds: vec![Bind { source: "/records".into(), target: "/workspace/.ae".into(), writable: false }],
        limits: Limits { memory_bytes: Some(1), pids: None, cpus: Some(cores(1.5)) },
        hostname: String::new(),
        cwd: "/root".into(),
        env: SandboxSpec::default_env(),
    }
}

#[test]
fn sandboxes_have_a_home_and_a_path() {
    let spec = spec();
    assert_eq!(spec.home(), "/root");
    assert_eq!(variable(&spec.env, "LANG"), Some("C.UTF-8"));
    assert_eq!(SandboxSpec { env: vec![], ..spec }.home(), "/root");
    let moved = vec![("HOME".to_owned(), "/h".to_owned()), ("HOME".to_owned(), "/i".to_owned())];
    assert_eq!(variable(&moved, "HOME"), Some("/h"));
}

#[test]
fn exit_codes_follow_the_shell() {
    assert_eq!(ExitStatus { code: Some(3), signal: None }.code(), 3);
    assert_eq!(killed().code(), 137);
    assert_eq!(ExitStatus { code: None, signal: None }.code(), 128);
    assert!(ExitStatus { code: Some(0), signal: None }.success());
    assert!(!killed().success());
    assert_eq!(Output { bytes: b"a\xFF".to_vec(), status: killed() }.text(), "a\u{FFFD}");
}

#[test]
fn ids_are_names_of_directories() {
    assert!(valid_id("a-B_9") && valid_id(&"x".repeat(64)));
    for id in ["", "a/b", "..", "é", "a b"] {
        assert!(!valid_id(id), "{id}");
    }
    assert!(!valid_id(&"x".repeat(65)));
    let error = choose_sandbox("a\"/", &spec(), None).unwrap_err();
    assert_eq!(error, "sandbox ids are 1-64 of [A-Za-z0-9_-]: \"a\\\"/\"");
    assert_eq!(check_removal(""), Err("invalid sandbox id \"\"".to_owned()));
    assert_eq!(check_removal("a"), Ok(()));
}

#[test]
fn a_live_sandbox_keeps_its_spec() {
    let (a, b) = (spec(), SandboxSpec { cwd: "/tmp".into(), ..spec() });
    assert_eq!(choose_sandbox("s", &a, None), Ok(Choice::New));
    assert_eq!(choose_sandbox("s", &a, Some((&a, true))), Ok(Choice::Open));
    assert_eq!(choose_sandbox("s", &b, Some((&a, false))), Ok(Choice::New));
    assert_eq!(
        choose_sandbox("s", &b, Some((&a, true))),
        Err("sandbox s is live with a different spec".to_owned())
    );
    assert!(a.same_as(&SandboxSpec { rootfs: "//image/".into(), ..spec() }));
    assert!(!a.same_as(&SandboxSpec { binds: vec![], ..spec() }));
    let writable = Bind { source: "/records".into(), target: "/workspace/.ae".into(), writable: true };
    assert!(!a.same_as(&SandboxSpec { binds: vec![writable], ..spec() }));
    let other = Layer { lower: "/project".into(), target: "/w".into() };
    assert!(!a.same_as(&SandboxSpec { layers: vec![other], ..spec() }));
}

#[test]
fn cores_are_compared_as_floats() {
    let with = |cpus: Option<f64>| SandboxSpec {
        limits: Limits { memory_bytes: Some(1), pids: None, cpus: cpus.map(cores) },
        ..spec()
    };
    let (near, nearer) = (with(Some(1.500001)), with(Some(1.5000011)));
    assert_eq!(near.limits.cpus.unwrap().quota, nearer.limits.cpus.unwrap().quota);
    assert!(!near.same_as(&nearer));
    assert_ne!(near, nearer);
    assert_eq!(
        choose_sandbox("s", &nearer, Some((&near, true))),
        Err("sandbox s is live with a different spec".to_owned())
    );
    assert!(near.same_as(&with(Some(1.500001))));
    assert!(with(Some(0.0)).same_as(&with(Some(-0.0))));
    assert!(with(Some(f64::INFINITY)).same_as(&with(Some(f64::INFINITY))));
    assert!(!with(Some(1.0)).same_as(&with(Some(-1.0))));
    assert!(!with(Some(f64::NAN)).same_as(&with(Some(f64::NAN))));
    assert!(!with(None).same_as(&with(Some(1.0))));
    assert!(with(None).same_as(&with(None)));
}

#[test]
fn setups_name_their_directories() {
    let sandbox = Sandbox { id: "s1".into(), dir: "/state/s1".into(), spec: spec() };
    let setup = sandbox.prepare();
    assert_eq!(setup.hostname, "s1");
    assert_eq!(setup.layers[0].upper, "/state/s1/layers/0/upper");
    assert_eq!(setup.layers[0].upper, sandbox.layer_upper(0));
    assert_eq!(
        directories(&setup),
        [
            "/state/s1/layers/0/upper",
            "/state/s1/layers/0/work",
            "/state/s1/root/upper",
            "/state/s1/root/work",
            "/state/s1/mnt"
        ]
    );
    let named = Sandbox { spec: SandboxSpec { hostname: "box".into(), ..spec() }, ..sandbox };
    assert_eq!(named.prepare().hostname, "box");
    assert_eq!((named.id(), named.spec().cwd.as_str()), ("s1", "/root"));
}

#[test]
fn roots_are_built_in_order() {
    let sandbox = Sandbox { id: "s".into(), dir: "/d".into(), spec: spec() };
    let steps = build_root(&sandbox.prepare(), &vec![true]);
    assert_eq!(steps[0], Step::MakePrivate);
    assert_eq!(
        steps[1],
        Step::Mount {
            source: "overlay".into(),
            target: "/d/mnt".into(),
            kind: Some("overlay".into()),
            flags: 0,
            data: Some("lowerdir=/image,upperdir=/d/root/upper,workdir=/d/root/work".into()),
        }
    );
    assert_eq!(steps[2], Step::MakeDir("/d/mnt/workspace".into()));
    assert_eq!(steps[4], Step::MakeDir("/d/mnt/workspace/.ae".into()));
    assert_eq!(
        steps[5],
        Step::Mount {
            source: "/records".into(),
            target: "/d/mnt/workspace/.ae".into(),
            kind: None,
            flags: 4096 | 16384,
            data: None,
        }
    );
    assert_eq!(steps[6], Step::ReadOnly("/d/mnt/workspace/.ae".into()));
    let count = steps.len();
    assert_eq!(steps[count - 3], Step::Pivot("/d/mnt".into()));
    assert_eq!(steps[count - 2], Step::Hostname("s".into()));
    assert_eq!(steps[count - 1], Step::LoopbackUp);
    let system = system_mounts("/r");
    assert_eq!(count, 7 + system.len() + 3);
    assert_eq!(system.len(), 28);
    assert_eq!(system[8], Step::Mount { source: "/dev/null".into(), target: "/r/dev/null".into(), kind: None, flags: 4096, data: None });
    assert_eq!(system[23], Step::Link { link: "/r/dev/ptmx".into(), target: "pts/ptmx".into() });
}

#[test]
fn files_are_bound_on_files() {
    let bind = BindMount { source: "/etc/hosts".into(), target: "/etc/hosts".into(), writable: true };
    let steps = bind_mount("/r", &bind, false);
    assert_eq!(steps.len(), 3);
    assert_eq!(steps[0], Step::MakeDir("/r/etc".into()));
    assert_eq!(steps[1], Step::MakeFile("/r/etc/hosts".into()));
}

#[test]
fn overlay_options_escape_what_parts_them() {
    assert_eq!(overlay_path("/a,b:c\\d"), "/a\\,b\\:c\\\\d");
    assert_eq!(overlay_options("/l", "/u:1", "/w"), "lowerdir=/l,upperdir=/u\\:1,workdir=/w");
    assert_eq!(inside("/r", "//etc"), "/r/etc");
    assert_eq!(inside("/r", "/"), "/r/");
}

#[test]
fn fourteen_capabilities_are_kept() {
    let dropped = dropped_capabilities();
    assert_eq!(dropped.len(), 64 - 14);
    assert!(!dropped.contains(&0) && dropped.contains(&2) && !dropped.contains(&31) && dropped.contains(&63));
    assert_eq!(capability_words(), (0xa804_25fb, 0));
}

#[test]
fn commands_are_known_until_they_exit() {
    let mut commands = Commands::new();
    assert_eq!(commands.spawned(7, Ok(100)), Reply::Spawned { id: 7 });
    assert_eq!(commands.spawned(8, Ok(200)), Reply::Spawned { id: 8 });
    assert_eq!(
        commands.spawned(9, Err("no".into())),
        Reply::SpawnFailed { id: 9, error: "no".into() }
    );
    assert_eq!(commands.handle(&Request::Kill { id: 7 }, 0, false), Todo::Kill(vec![100]));
    assert_eq!(commands.handle(&Request::Kill { id: 9 }, 0, false), Todo::Kill(vec![]));
    assert_eq!(commands.reaped(100, 3 << 8), Some(Reply::Exited { id: 7, code: Some(3), signal: None }));
    assert_eq!(commands.reaped(100, 0), None);
    assert_eq!(commands.reaped(200, 9), Some(Reply::Exited { id: 8, code: None, signal: Some(9) }));
    commands.insert(5, 1);
    commands.insert(5, 2);
    assert_eq!(commands.leaders(1), Vec::<i32>::new());
    assert_eq!(commands.remove(5), Some(2));
}

#[test]
fn init_knows_what_to_do() {
    let commands = Commands::new();
    let spawn = Request::Spawn { id: 1, argv: vec![], cwd: "/".into(), env: vec![] };
    assert_eq!(commands.handle(&spawn, 0, true), Todo::Fail("spawn without output".into()));
    assert_eq!(commands.handle(&spawn, 1, true), Todo::Spawn);
    let open = Request::Open { id: 2, path: "/x".into(), mode: OpenMode::Read };
    assert_eq!(commands.handle(&open, 0, true), Todo::Open);
    assert_eq!(
        commands.handle(&Request::Shutdown { id: 3, force: false }, 0, false),
        Todo::Answer(Reply::ShutdownRefused { id: 3 })
    );
    assert_eq!(commands.handle(&Request::Shutdown { id: 3, force: true }, 0, false), Todo::Exit);
    assert_eq!(commands.handle(&Request::Shutdown { id: 3, force: false }, 0, true), Todo::Exit);
    let setup = Sandbox { id: "s".into(), dir: "/d".into(), spec: spec() }.prepare();
    assert_eq!(
        commands.handle(&Request::Setup(setup), 0, false),
        Todo::Fail("sandbox is already set up".into())
    );
    assert_eq!(opened(4, None), Reply::Opened { id: 4 });
    assert_eq!(opened(4, Some(Some(2))), Reply::OpenFailed { id: 4, errno: 2 });
    assert_eq!(opened(4, Some(None)), Reply::OpenFailed { id: 4, errno: 5 });
    assert_eq!(wait_status(0), (Some(0), None));
    assert_eq!(wait_status(0x8b), (None, Some(11)));
}

#[test]
fn processes_are_told_by_their_names() {
    let names = |all: &[&str]| all.iter().map(|name| (*name).to_owned()).collect::<Vec<String>>();
    assert!(only_init_remains(&names(&["1", "self", "cpuinfo", "4294967296", "-3"])));
    assert!(!only_init_remains(&names(&["1", "12"])));
    assert!(only_init_remains(&vec![]));
}

#[test]
fn programs_are_looked_for_in_the_path() {
    let env = vec![("PATH".to_owned(), "/bin::/opt".to_owned())];
    assert_eq!(
        find_program("ls", &env),
        Search::Among(vec!["/bin/ls".into(), "ls".into(), "/opt/ls".into()])
    );
    assert_eq!(find_program("./ls", &env), Search::Given("./ls".into()));
    assert_eq!(
        find_program("ls", &vec![]),
        Search::Among(vec!["/usr/bin/ls".into(), "/bin/ls".into()])
    );
    assert_eq!(assigned(&env), ["PATH=/bin::/opt"]);
    assert_eq!(first_word(&vec![]), Err("empty command".to_owned()));
    assert_eq!(first_word(&vec!["a".into(), "b".into()]), Ok("a".to_owned()));
    assert_eq!(not_found("x"), "x: command not found");
    assert_eq!(spawn_failure(b'c', "x", "/gone", "e"), "Working directory does not exist: /gone");
    assert_eq!(spawn_failure(b'e', "x", "/", "Permission denied"), "x: Permission denied");
}

#[test]
fn directories_are_made_where_asked() {
    assert_eq!(directory_to_make("/a/b", OpenMode::Write { create_parents: true }), Some("/a".into()));
    assert_eq!(directory_to_make("/a/b", OpenMode::Write { create_parents: false }), None);
    assert_eq!(directory_to_make("/a/b", OpenMode::Read), None);
    assert_eq!(directory_to_make("/a/b", OpenMode::Update), None);
}

#[test]
fn large_messages_travel_in_files() {
    let small = vec![b'{'; INLINE_LIMIT];
    let packet = pack(&small);
    assert!(!packet.in_file && packet.bytes == small);
    assert_eq!(locate(&packet.bytes, 1), Place::Packet);
    let packet = pack(&vec![b'{'; INLINE_LIMIT + 1]);
    assert!(packet.in_file && packet.bytes == b"\0memfd");
    assert_eq!(locate(&packet.bytes, 2), Place::LastDescriptor);
    assert_eq!(locate(&packet.bytes, 0), Place::Missing);
    assert_eq!(locate(b"", 0), Place::Nowhere);
    assert_eq!(locate(b"\0memfx", 0), Place::Packet);
}

#[test]
fn replies_go_to_whom_they_are_for() {
    assert_eq!(Reply::Ready.id(), None);
    assert_eq!(Reply::Opened { id: 3 }.id(), Some(3));
    assert_eq!(route(&Reply::SetupFailed { error: "e".into() }), Recipient::Setup);
    assert_eq!(
        route(&Reply::Exited { id: 4, code: Some(1), signal: None }),
        Recipient::Exit { id: 4, status: ExitStatus { code: Some(1), signal: None } }
    );
    assert_eq!(route(&Reply::ShutdownRefused { id: 5 }), Recipient::Request { id: 5 });
    assert_eq!(spawn_answer(Reply::Spawned { id: 1 }), Answer::Done);
    assert_eq!(
        spawn_answer(Reply::SpawnFailed { id: 1, error: "e".into() }),
        Answer::Failed { error: "e".into() }
    );
    assert_eq!(spawn_answer(Reply::Ready), Answer::Unexpected);
    assert_eq!(open_answer(&Reply::Opened { id: 1 }, 1), Answer::Done);
    assert_eq!(open_answer(&Reply::Opened { id: 1 }, 0), Answer::Unexpected);
    assert_eq!(open_answer(&Reply::OpenFailed { id: 1, errno: 13 }, 0), Answer::Errno { errno: 13 });
    assert_eq!(setup_answer(Reply::Ready), Answer::Done);
    assert_eq!(setup_answer(Reply::SetupFailed { error: "x".into() }), Answer::Failed { error: "x".into() });
}

#[test]
fn activity_keeps_a_sandbox_up() {
    let mut live = Live::new();
    assert_eq!((live.next_id(), live.next_id()), (1, 2));
    live.begin();
    live.begin();
    assert_eq!(begin_stop(Some(false), live.in_flight(), false), Stop::Refused);
    assert_eq!(begin_stop(Some(false), live.in_flight(), true), Stop::Ask);
    assert!(!live.end());
    assert!(live.end());
    assert_eq!(begin_stop(Some(false), 0, false), Stop::Ask);
    assert_eq!(begin_stop(Some(true), 0, false), Stop::AwaitExit);
    assert_eq!(begin_stop(None, 0, false), Stop::Stopped);
    assert_eq!(after_asking(&Some(Reply::ShutdownRefused { id: 1 })), Stop::Refused);
    assert_eq!(after_asking(&None), Stop::AwaitExit);
    assert_eq!((find_live(None), find_live(Some(true)), find_live(Some(false))), (Found::Nothing, Found::Stale, Found::Running));
}

#[test]
fn draining_ends_after_the_exit() {
    let done = ExitStatus { code: Some(0), signal: None };
    let mut drain = Drain::new();
    assert_eq!(drain.on(Heard::Output), Next::Sink);
    assert_eq!(drain.on(Heard::Exit(Some(done))), Next::ReadBriefly);
    assert_eq!(drain.on(Heard::Output), Next::Sink);
    assert_eq!(drain.on(Heard::Deadline), Next::Done(done));
    let mut closed = Drain::new();
    assert_eq!(closed.on(Heard::End), Next::AwaitExit);
    assert_eq!(closed.on(Heard::Exit(None)), Next::Done(killed()));
}

#[test]
fn filters_deny_namespaces_and_listed_calls() {
    let (denied, fallback) = agent_filters(&vec![272, 308, 272, 56], 56, 435);
    assert_eq!((denied.matched, denied.otherwise), (Action::Errno(1), Action::Allow));
    assert_eq!((fallback.matched, fallback.otherwise), (Action::Errno(38), Action::Allow));
    let calls: Vec<u32> = denied.rules.iter().map(|rule| rule.syscall).collect();
    assert_eq!(calls, [272, 308, 56], "no call has two rules");
    assert_eq!(denied.rules[0], Rule { syscall: 272, any: vec![] });
    assert_eq!(denied.rules[2].any.len(), 8);
    assert_eq!(
        denied.rules[2].any[0],
        [Condition {
            argument: 0,
            width: Width::Qword,
            operator: Operator::MaskedEq(0x1000_0000),
            value: 0x1000_0000
        }]
    );
    assert_eq!(fallback.rules, [Rule { syscall: 435, any: vec![] }]);
    assert_eq!(program(&denied, "vax").unwrap_err(), "InvalidTargetArch(\"vax\")");
    let wrong = Condition { argument: 9, width: Width::Dword, operator: Operator::Eq, value: 1 };
    let filter = |any| Filter {
        rules: vec![Rule { syscall: 1, any }],
        matched: Action::Errno(1),
        otherwise: Action::Allow,
    };
    assert!(program(&filter(vec![vec![wrong]]), "x86_64").is_err());
    assert!(program(&filter(vec![vec![]]), "x86_64").is_err());
}

/// What a compiled filter returns for a call on x86_64.
fn returned(steps: &[(u16, u8, u8, u32)], syscall: u32, argument: u64) -> u32 {
    let load = |offset: u32| match offset {
        0 => syscall,
        4 => 0xC000_003E,
        16 => argument as u32,
        20 => (argument >> 32) as u32,
        _ => 0,
    };
    let (mut at, mut held) = (0, 0);
    loop {
        let (code, on_true, on_false, operand) = steps[at];
        at += 1;
        match code {
            0x20 => held = load(operand),
            0x54 => held &= operand,
            0x15 => at += usize::from(if held == operand { on_true } else { on_false }),
            0x05 => at += operand as usize,
            0x06 => return operand,
            _ => panic!("unknown instruction {code:#x}"),
        }
    }
}

#[test]
fn compiled_filters_deny_what_their_rules_match() {
    let (allow, eperm, enosys) = (0x7FFF_0000, 0x0005_0001, 0x0005_0026);
    let (denied, fallback) = agent_filters(&vec![272, 308], 56, 435);
    let steps = program(&denied, "x86_64").unwrap();
    assert_eq!(steps, program(&denied, "X86_64").unwrap());
    assert_eq!([returned(&steps, 272, 0), returned(&steps, 308, 7)], [eperm, eperm]);
    assert_eq!([returned(&steps, 0, 0), returned(&steps, 435, 0)], [allow, allow]);
    for flag in [0x1000_0000, 0x2_0000, 0x2000_0000, 0x4000_0000, 0x800_0000, 0x400_0000, 0x200_0000, 0x80] {
        assert_eq!(returned(&steps, 56, flag | 0x11), eperm);
        assert_eq!(returned(&steps, 57, flag), allow);
    }
    assert_eq!([returned(&steps, 56, 0x11), returned(&steps, 56, 0x80_0000_0000)], [allow, allow]);
    let steps = program(&fallback, "x86_64").unwrap();
    assert_eq!([returned(&steps, 435, 0), returned(&steps, 56, 0x1000_0000)], [enosys, allow]);
    let low = Condition { argument: 0, width: Width::Dword, operator: Operator::Eq, value: 5 };
    let filter = Filter {
        rules: vec![Rule { syscall: 9, any: vec![vec![low]] }],
        matched: Action::Allow,
        otherwise: Action::Errno(13),
    };
    let steps = program(&filter, "x86_64").unwrap();
    assert_eq!([returned(&steps, 9, 0x1_0000_0005), returned(&steps, 9, 6)], [allow, 0x0005_000D]);
}

#[test]
fn denied_calls_are_listed_by_name() {
    let names = denied_calls("x86_64");
    assert_eq!(names.len(), 36);
    assert_eq!((names[0].as_str(), names[33].as_str()), ("unshare", "quotactl"));
    assert_eq!(&names[34..], ["iopl", "ioperm"]);
    assert_eq!(denied_calls("aarch64"), &names[..34]);
}

#[test]
fn inits_are_launched_confined() {
    assert_eq!(id_map(), "0 0 1\n1 1 65536\n");
    assert_eq!(clone_flags(), 0x2_7E02_1000);
}

#[test]
fn subordinate_ranges_are_found_by_name_or_number() {
    let text = "other:1:70000\nme:100:10\nme:x:65536\n1000:200000:65536\nme:300000:65536\n";
    assert_eq!(find_range(text, "/etc/subuid", "me", 1000), Ok(200000));
    assert_eq!(find_range(text, "/etc/subuid", "me", 5), Ok(300000));
    assert_eq!(
        find_range(text, "/etc/subuid", "nobody", 5),
        Err("/etc/subuid has no range of 65536 ids for nobody".to_owned())
    );
    assert_eq!(map_ids(42, 1000, 200000), ["42", "0", "1000", "1", "1", "200000", "65536"]);
}

#[test]
fn the_parent_exits_as_the_harness_did() {
    assert_eq!(exit_code(true, Ended::Exited { code: 3 }), 3);
    assert_eq!(exit_code(true, Ended::Signaled { signal: 15 }), 143);
    assert_eq!(exit_code(true, Ended::Otherwise), 1);
    assert_eq!(exit_code(false, Ended::Exited { code: 0 }), 1);
}

#[test]
fn cgroups_are_claimed_where_delegated() {
    assert_eq!(own_cgroup("12:cpu:/x\n0::/user.slice/a\n"), Ok("/sys/fs/cgroup/user.slice/a".to_owned()));
    assert_eq!(own_cgroup("0::/"), Ok("/sys/fs/cgroup/".to_owned()));
    assert_eq!(own_cgroup("1:cpu:/"), Err("cgroup v2 is required".to_owned()));
    assert!(alone(" 42\n", 42) && !alone("42\n43\n", 42) && !alone("", 42));
    assert_eq!(
        candidates("/sys/fs/cgroup/user.slice/user-1/app"),
        ["/sys/fs/cgroup/user.slice/user-1", "/sys/fs/cgroup/user.slice"]
    );
    assert!(candidates("/sys/fs/cgroup/x").is_empty() && candidates("/elsewhere/a/b").is_empty());
    let own = claimed("/c", true, true, None, 7).unwrap();
    assert_eq!(own, Cgroups { root: "/c".into(), created_root: false });
    let below = claimed("/c/d", true, false, Some("/c"), 7).unwrap();
    assert_eq!(below, Cgroups { root: "/c/erisharness-7".into(), created_root: true });
    assert_eq!((below.agents().as_str(), below.harness().as_str()), ("/c/erisharness-7/agents", "/c/erisharness-7/harness"));
    assert_eq!(
        claimed("/c", false, true, None, 7).unwrap_err(),
        "no writable cgroup above /c delegates [\"memory\", \"pids\", \"cpu\"]"
    );
}

#[test]
fn controllers_and_owners_are_read() {
    assert!(has_controllers("cpu io memory pids\n"));
    assert!(!has_controllers("cpu memory"));
    assert_eq!(controllers_request(), "+memory +pids +cpu");
    assert_eq!(stale_owner("erisharness-123"), Some(123));
    assert_eq!(stale_owner("erisharness-"), None);
    assert_eq!(stale_owner("erisharness-99999999999"), None);
    assert_eq!(stale_owner("other-1"), None);
}

#[test]
fn limits_are_written_to_their_files() {
    let written = |limits: Limits, swap| {
        limits.apply(swap).into_iter().map(|(file, value)| format!("{file}={value}")).collect::<Vec<String>>()
    };
    assert_eq!(written(Limits::default(), true), ["memory.max=max", "pids.max=max", "cpu.max=max 100000"]);
    let limits = Limits { memory_bytes: Some(5), pids: Some(6), cpus: Some(cores(1.5)) };
    assert_eq!(
        written(limits, true),
        ["memory.max=5", "memory.swap.max=0", "pids.max=6", "cpu.max=150000 100000"]
    );
    assert_eq!(written(Limits { cpus: Some(cores(0.00003)), ..limits }, false)[2], "cpu.max=1000 100000");
}

#[test]
fn direct_machines_have_a_home() {
    let spec = |env| DirectSpec { cwd: "/w".into(), env };
    let own = vec![("HOME".to_owned(), "/elsewhere".to_owned())];
    assert_eq!(Direct::new(spec(Some(own)), Some("/me".into())).home(), "/elsewhere");
    assert_eq!(Direct::new(spec(Some(vec![])), Some("/me".into())).home(), "/me");
    assert_eq!(Direct::new(spec(None), None).home(), "/");
    assert_eq!(Direct::new(spec(None), None).cwd(), "/w");
}

#[test]
fn commands_start_in_a_directory() {
    let argv = vec!["ls".to_owned()];
    assert_eq!(check_start(&vec![], "/", true), Err("empty command".to_owned()));
    assert_eq!(check_start(&argv, "/gone", false), Err("Working directory does not exist: /gone".to_owned()));
    assert_eq!(check_start(&argv, "/", true), Ok(()));
    assert_eq!(Leader { pid: 12, reaped: false }.group_to_kill(), Some(-12));
    assert_eq!(Leader { pid: 12, reaped: true }.group_to_kill(), None);
}

#[test]
fn images_are_unpacked_with_their_owners() {
    assert_eq!(
        import_arguments("/img"),
        ["-x", "-p", "--numeric-owner", "--exclude=dev/*", "--exclude=.dockerenv", "-C", "/img"]
    );
}
