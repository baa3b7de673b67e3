use cgrun::cgroup::{full_cgroup_path, is_transient_leaf_name, ProcsRead};
use cgrun::command::{
    after_clean, check_target, clean_escalated_message, clean_lines, cleaned_message, cmd_clean,
    cmd_privileged, cmd_setup, escalating_message, invalid_base, left_message, locate, refusal_message, request_message, resolve_cgroup,
    resolve_message, setup_message, Clean, CleanEnd, Cleaning, Options, Refusal, Request, RequestError, ResolveError, Setup,
};
use cgrun::dmem::{Capacity, ExpandError};
use cgrun::ensure::{
    after_escalation, create_failed, ensure_exists, escalation_denied, invalid_component, invalid_path,
    needed_controllers, Ensure,
};
use cgrun::fault::{IoCause, IoKind};
use cgrun::kill::is_cgrun_target;
use cgrun::limits::{apply_limits, limit_message, LimitError, LimitStep};
use cgrun::privilege::validate_rel;
use cgrun::remove::{removal_message, After, Attempt, Removal};
use cgrun::run::{
    check_requirements, lack_message, leaf_name, leaf_rel, name_message, validate_persistent_name,
    Lack, NameError, RunArgs,
};
use cgrun::signal::{parse_signal, unknown_signal, Signal};
use cgrun::size::SizeError;
use cgrun::spawn::{
    after_escalated_move, after_move, after_run, check_command, child_goes_on, command_message,
    exit_code, grace_step, graceful_kill, move_failed, running_message, AfterRun, CommandError, GraceStart,
    GraceStep, Parent, Waited, NOT_EXECUTED, NOT_MOVED,
};
use cgrun::tree::{
    check_type_again, ensure_valid_type, freeze, frozen_message, kill_tree, thaw, unsent_message, Ask, FreezeTree, KillTree,
    SignalTree,
};

fn args() -> RunArgs {
    RunArgs {
        persistent: None,
        vram_low: Vec::new(),
        vram_max: Vec::new(),
        memory_max: None,
        memory_high: None,
        memory_low: None,
        memory_min: None,
        cpu_weight: None,
        cpu_weight_nice: None,
        grace: 2,
        priv_: false,
        cmd: vec!["true".to_string()],
    }
}

fn cause(kind: IoKind, raw: Option<i32>) -> IoCause {
    IoCause { kind, raw }
}

#[test]
fn leaf_rel_placement() {
    let current = "/user.slice/user-1000.slice/session-2.scope";
    assert_eq!(leaf_rel(true, false, "x", current), "cgrun/x");
    assert_eq!(leaf_rel(true, true, "x", current), "cgrun/x");
    assert_eq!(leaf_rel(false, true, "x", current), "cgrun-root/x");
    // Regular mode nests under the current scope; just check the leaf suffix.
    assert!(
        leaf_rel(false, false, "x", current).ends_with("/x")
            || leaf_rel(false, false, "x", current) == "x"
    );
}

#[test]
fn leaves_stay_out_of_scopes() {
    assert_eq!(
        leaf_rel(false, false, "x", "/user.slice/user-1000.slice/session-2.scope"),
        "user.slice/user-1000.slice/x"
    );
    assert_eq!(leaf_rel(false, false, "x", "user.slice/"), "user.slice/x");
    assert_eq!(leaf_rel(false, false, "x", "only.scope"), "x");
    assert_eq!(leaf_rel(false, false, "x", "/"), "x");
    assert_eq!(leaf_rel(false, false, "x", ""), "x");
}

#[test]
fn leaves_are_recognized() {
    let m = "/sys/fs/cgroup";
    let (transient, _) = leaf_name(None, 71217, 5).unwrap();
    for (priv_, root, name) in [
        (true, false, "mygame"),
        (false, true, "mygame"),
        (false, false, transient.as_str()),
    ] {
        let rel = leaf_rel(priv_, root, name, "/user.slice/x.scope");
        assert!(is_cgrun_target(m, "cgrun", &full_cgroup_path(m, &rel)));
    }
    let rel = leaf_rel(false, false, "mygame", "/user.slice/x.scope");
    assert!(!is_cgrun_target(m, "cgrun", &full_cgroup_path(m, &rel)));
}

#[test]
fn leaf_names() {
    let (name, stays) = leaf_name(None, 71217, 0).unwrap();
    assert_eq!(name, "cgrun-71217-1631.scope");
    assert!(!stays);
    assert!(is_transient_leaf_name(&name));
    let (name, _) = leaf_name(None, 1, 0xabcd0000).unwrap();
    assert_eq!(name, "cgrun-1-0001.scope");
    let (name, stays) = leaf_name(Some("mygame"), 1, 2).unwrap();
    assert_eq!(name, "mygame");
    assert!(stays);
    assert_eq!(leaf_name(Some("a/b"), 1, 2).unwrap_err(), NameError::Charset);
    for name in ["mygame", "...", "a.b-c_D9"] {
        assert_eq!(validate_rel(&leaf_rel(true, false, name, "")), Ok(()));
    }
}

#[test]
fn persistent_names() {
    assert_eq!(validate_persistent_name(&"a".repeat(128)), Ok(()));
    assert_eq!(validate_persistent_name(&"a".repeat(129)), Err(NameError::TooLong));
    assert_eq!(validate_persistent_name(&"é".repeat(65)), Err(NameError::TooLong));
    assert_eq!(validate_persistent_name("é"), Err(NameError::Charset));
    assert_eq!(validate_persistent_name(" "), Err(NameError::Blank));
    assert_eq!(validate_persistent_name("."), Err(NameError::Blank));
    assert_eq!(validate_persistent_name(".."), Err(NameError::Blank));
    assert_eq!(validate_persistent_name("a b"), Err(NameError::Charset));
    assert_eq!(
        name_message(NameError::TooLong, "x"),
        "invalid --persistent NAME (max 128 chars)"
    );
    assert_eq!(name_message(NameError::Blank, "."), "invalid --persistent NAME");
    assert_eq!(
        name_message(NameError::Charset, "a b"),
        "invalid --persistent NAME 'a b': use [A-Za-z0-9._-] only"
    );
}

#[test]
fn requirements() {
    let mut r = args();
    assert!(check_requirements(&r, None, None).unwrap().is_empty());
    r.cmd.clear();
    assert_eq!(check_requirements(&r, None, None).unwrap_err(), Lack::Command);
    let mut r = args();
    r.cpu_weight = Some(1);
    assert!(r.needs_cpu() && !r.needs_dmem() && !r.needs_memory());
    assert_eq!(check_requirements(&r, Some("memory"), None).unwrap_err(), Lack::Cpu);
    assert!(check_requirements(&r, Some("cpu memory"), None).is_ok());
    r.cpu_weight_nice = Some(1);
    assert_eq!(check_requirements(&r, Some("cpu"), None).unwrap_err(), Lack::OneWeight);
    let mut r = args();
    r.memory_low = Some("1G".to_string());
    assert_eq!(check_requirements(&r, Some("cpu"), None).unwrap_err(), Lack::Memory);
    let mut r = args();
    r.vram_max.push("1G".to_string());
    assert_eq!(check_requirements(&r, Some("cpu"), None).unwrap_err(), Lack::Dmem);
    assert_eq!(check_requirements(&r, Some("cpu"), Some("broken")).unwrap_err(), Lack::Dmem);
    assert_eq!(check_requirements(&r, None, Some("drm/a 5\n")).unwrap().len(), 1);
    assert_eq!(lack_message(Lack::Command), "no command provided (use -- <cmd>)");
    assert_eq!(lack_message(Lack::Cpu), "cpu controller not available");
    assert_eq!(lack_message(Lack::Memory), "memory controller not available");
    assert_eq!(
        lack_message(Lack::OneWeight),
        "use only one of --cpu-weight or --cpu-weight-nice"
    );
    assert!(lack_message(Lack::Dmem).starts_with("dmem not available"));
}

fn shown(steps: &[LimitStep]) -> Vec<String> {
    steps
        .iter()
        .map(|s| match s {
            LimitStep::Write(w) => format!("{} <- {}", w.file, w.body.trim_end()),
            LimitStep::Say(t) => t.clone(),
        })
        .collect()
}

#[test]
fn limits_in_order() {
    let mut cap = Capacity::new();
    cap.insert("drm/a".to_string(), 9);
    let mut r = args();
    r.vram_low.push("1k".to_string());
    r.vram_max.push("drm/a=max".to_string());
    r.memory_max = Some("4k".to_string());
    r.memory_high = Some("3k".to_string());
    r.memory_low = Some("2k".to_string());
    r.memory_min = Some("1k".to_string());
    r.cpu_weight = Some(100);
    r.cpu_weight_nice = Some(-5);
    let plan = apply_limits("/c", &r, &cap);
    assert!(plan.stop.is_none());
    assert_eq!(
        shown(&plan.steps),
        [
            "dmem.low <- drm/a 1024",
            "dmem.low configured for /c",
            "dmem.max <- drm/a max",
            "dmem.max configured for /c",
            "memory.max <- 4096",
            "memory.max=4k set for /c",
            "memory.high <- 3072",
            "memory.high=3k set for /c",
            "memory.low <- 2048",
            "memory.low=2k set for /c",
            "memory.min <- 1024",
            "memory.min=1k set for /c",
            "cpu.weight <- 100",
            "cpu.weight=100 set for /c",
            "cpu.weight.nice <- -5",
            "cpu.weight.nice=-5 set for /c",
        ]
    );
    assert!(apply_limits("/c", &args(), &cap).steps.is_empty());
}

#[test]
fn limits_stop_at_the_first_fault() {
    let cap = Capacity::new();
    let mut r = args();
    r.memory_max = Some("1k".to_string());
    r.memory_low = Some("zz".to_string());
    r.cpu_weight = Some(7);
    let plan = apply_limits("/c", &r, &cap);
    assert_eq!(shown(&plan.steps), ["memory.max <- 1024", "memory.max=1k set for /c"]);
    let e = plan.stop.unwrap();
    assert_eq!(e, LimitError::MemoryLow(SizeError::Invalid));
    assert_eq!(
        limit_message(e, "/c", &r, &cap),
        "write /c/memory.low: invalid --memory.low value 'zz' (use SIZE like 512M/7G or max): invalid size 'zz'"
    );
    for (set, want) in [
        (0, LimitError::MemoryMax(SizeError::Invalid)),
        (1, LimitError::MemoryHigh(SizeError::Invalid)),
        (2, LimitError::MemoryMin(SizeError::Invalid)),
    ] {
        let mut r = args();
        let bad = Some("x".to_string());
        match set {
            0 => r.memory_max = bad,
            1 => r.memory_high = bad,
            _ => r.memory_min = bad,
        }
        assert_eq!(apply_limits("/c", &r, &cap).stop, Some(want));
        assert!(limit_message(want, "/c", &r, &cap).ends_with("invalid size 'x'"));
    }
    let mut r = args();
    r.cpu_weight = Some(0);
    let e = apply_limits("/c", &r, &cap).stop.unwrap();
    assert_eq!(e, LimitError::Weight);
    assert_eq!(
        limit_message(e, "/c", &r, &cap),
        "write /c/cpu.weight: cpu.weight must be 1..10000, got 0"
    );
    let mut r = args();
    r.cpu_weight_nice = Some(-21);
    let e = apply_limits("/c", &r, &cap).stop.unwrap();
    assert_eq!(e, LimitError::Nice);
    assert_eq!(
        limit_message(e, "/c", &r, &cap),
        "write /c/cpu.weight.nice: cpu.weight.nice must be -20..19, got -21"
    );
    let mut r = args();
    r.vram_low.push("1".to_string());
    let e = apply_limits("/c", &r, &cap).stop.unwrap();
    assert_eq!(e, LimitError::VramLow(ExpandError::NoRegions));
    assert_eq!(
        limit_message(e, "/c", &r, &cap),
        "no dmem regions (check dmem.capacity / driver)"
    );
    let mut r = args();
    r.vram_max.push("1".to_string());
    let e = apply_limits("/c", &r, &cap).stop.unwrap();
    assert_eq!(e, LimitError::VramMax(ExpandError::NoRegions));
    assert_eq!(
        limit_message(e, "/c", &r, &cap),
        "no dmem regions (check dmem.capacity / driver)"
    );
}

#[test]
fn only_privileged_runs_escalate() {
    let todo = |exists, use_priv, root| ensure_exists("/m", "a/x", exists, use_priv, root).unwrap();
    assert_eq!(todo(true, true, false), ("/m/a/x".to_string(), Ensure::Ready));
    assert_eq!(todo(false, true, false).1, Ensure::Escalate);
    assert_eq!(todo(false, true, true).1, Ensure::Create);
    assert_eq!(todo(false, false, false).1, Ensure::Create);
    assert!(ensure_exists("/m", "../x", false, true, false).is_none());
    assert_eq!(invalid_path("../x"), "invalid cgroup path '../x'");
    assert_eq!(
        escalation_denied("/m", "/bin/cgrun"),
        "permission denied on /m: run `pkexec /bin/cgrun setup` once"
    );
    assert_eq!(after_escalation("/m/x", true), Ok(()));
    assert_eq!(
        after_escalation("/m/x", false),
        Err("pkexec succeeded but /m/x still missing".to_string())
    );
}

#[test]
fn failed_creations() {
    let t = create_failed("/m/x", &[cause(IoKind::PermissionDenied, None)]);
    assert!(t.starts_with("cannot create cgroup /m/x"));
    assert!(t.contains("is not delegated to you"));
    assert!(t.ends_with("Check delegation permissions or run with --priv"));
    assert_eq!(create_failed("/m/x", &[cause(IoKind::Other, Some(28))]), "mkdir /m/x failed");
    assert_eq!(needed_controllers(true, true, true), ["dmem", "memory", "cpu"]);
    assert_eq!(needed_controllers(false, true, false), ["memory"]);
    assert!(needed_controllers(false, false, false).is_empty());
}

#[test]
fn signals() {
    for (text, number) in [
        ("TERM", 15),
        ("KILL", 9),
        ("HUP", 1),
        ("INT", 2),
        ("QUIT", 3),
        ("USR1", 10),
        ("USR2", 12),
        ("sigterm", 15),
        ("SigSigKill", 9),
        ("15", 15),
        ("9", 9),
        ("SIG9", 9),
        ("+31", 31),
        ("19", 19),
    ] {
        assert_eq!(parse_signal(text).unwrap().number(), number, "{text}");
    }
    for text in ["", "SIG", "0", "32", "-9", "STOP", "TERM ", "99999999999"] {
        assert!(parse_signal(text).is_none(), "{text}");
    }
    assert!(Signal::from_number(0).is_none());
    for (number, name) in [(1, "SIGHUP"), (9, "SIGKILL"), (15, "SIGTERM"), (31, "SIGSYS")] {
        assert_eq!(Signal::from_number(number).unwrap().name(), name);
    }
    assert_eq!(
        unknown_signal("x"),
        "unknown signal 'x' (try TERM, KILL, HUP, INT, 9, 15)"
    );
}

#[test]
fn trees_are_signalled() {
    let reads = [
        ProcsRead::Text("10\n11\n".to_string()),
        ProcsRead::Text("12\n13\n".to_string()),
    ];
    let mut s = SignalTree::start("cgrun/a", &reads).unwrap();
    assert_eq!(s.first(), Ask::Look(10));
    assert_eq!(s.looked(Some("0::/cgrun/a\n")), Ask::Send(10));
    assert_eq!(s.sent(None), Ask::Look(11));
    assert_eq!(s.looked(Some("0::/elsewhere\n")), Ask::Look(12));
    assert_eq!(s.looked(Some("0::/cgrun/a/sub\n")), Ask::Send(12));
    assert_eq!(s.sent(Some(3)), Ask::Look(13));
    assert_eq!(s.looked(None), Ask::Done);
    assert_eq!(s.looked(None), Ask::Done);
    assert_eq!(s.sent(None), Ask::Done);
    let mut s = SignalTree::start("cgrun/a", &reads).unwrap();
    s.looked(Some("0::/cgrun/a\n"));
    assert_eq!(s.sent(Some(1)), Ask::Failed(10));
    let denied = [ProcsRead::Refused(vec![cause(IoKind::PermissionDenied, None)])];
    assert!(SignalTree::start("cgrun/a", &denied).is_err());
}

#[test]
fn trees_are_killed() {
    match kill_tree(true, &[]).unwrap() {
        KillTree::Write(s) => assert_eq!((s.file.as_str(), s.body.as_str()), ("cgroup.kill", "1")),
        KillTree::Send(..) => unreachable!(),
    }
    match kill_tree(false, &[ProcsRead::Text("5\n6\n".to_string())]).unwrap() {
        KillTree::Send(pids, sig) => {
            assert_eq!(pids, [5, 6]);
            assert_eq!(sig.number(), 9);
        }
        KillTree::Write(_) => unreachable!(),
    }
    let denied = [ProcsRead::Refused(vec![cause(IoKind::PermissionDenied, None)])];
    assert_eq!(kill_tree(false, &denied).unwrap_err(), 0);
}

#[test]
fn trees_are_frozen_and_thawed() {
    for (plan, body, number) in [
        (freeze(true), Some("1"), 0),
        (freeze(false), None, 19),
        (thaw(true), Some("0"), 0),
        (thaw(false), None, 18),
    ] {
        match plan {
            FreezeTree::Write(s) => {
                assert_eq!(s.file, "cgroup.freeze");
                assert_eq!(Some(s.body.as_str()), body);
            }
            FreezeTree::Signal(sig) => {
                assert!(body.is_none());
                assert_eq!(sig.number(), number);
            }
        }
    }
}

#[test]
fn types_are_mended() {
    let s = ensure_valid_type(Some("domain invalid\n")).unwrap();
    assert_eq!((s.file.as_str(), s.body.as_str()), ("cgroup.type", "threaded"));
    assert!(ensure_valid_type(Some("domain\n")).is_none());
    assert!(ensure_valid_type(None).is_none());
    assert_eq!(check_type_again("/m/x", Some("threaded\n")), Ok(()));
    assert_eq!(check_type_again("/m/x", None), Ok(()));
    assert_eq!(
        check_type_again("/m/x", Some("domain invalid\n")),
        Err("cgroup type still invalid after fix: /m/x: domain invalid".to_string())
    );
}

#[test]
fn removals_retry() {
    let busy = Attempt::Refused(cause(IoKind::ResourceBusy, Some(16)));
    let mut r = Removal::new();
    let mut waits = Vec::new();
    let end = loop {
        match r.remove_cgroup_with_retry(busy) {
            After::Wait(ms) => waits.push(ms),
            end => break end,
        }
    };
    assert_eq!(end, After::Busy);
    assert_eq!(waits.len(), 49);
    assert_eq!(waits[..9], [10, 20, 40, 80, 160, 320, 640, 1000, 1000]);
    assert_eq!(waits.iter().sum::<u64>(), 43270);
    let mut r = Removal::new();
    let not_empty = Attempt::Refused(cause(IoKind::Other, Some(39)));
    assert_eq!(r.remove_cgroup_with_retry(not_empty), After::Wait(10));
    assert_eq!(r.remove_cgroup_with_retry(Attempt::Removed), After::Done);
    assert_eq!(Removal::new().remove_cgroup_with_retry(Attempt::Gone), After::Done);
    assert_eq!(
        Removal::new().remove_cgroup_with_retry(Attempt::Refused(cause(
            IoKind::PermissionDenied,
            Some(13)
        ))),
        After::Refused
    );
}

#[test]
fn removals_that_were_given_up() {
    assert_eq!(removal_message(After::Busy, "/m/x"), Some("cgroup busy: /m/x".to_string()));
    assert_eq!(removal_message(After::Refused, "/m/x"), Some("rmdir /m/x".to_string()));
    assert_eq!(removal_message(After::Done, "/m/x"), None);
    assert_eq!(removal_message(After::Wait(10), "/m/x"), None);
}

#[test]
fn what_is_said() {
    assert_eq!(command_message(CommandError::Empty, ""), "no command");
    assert_eq!(
        command_message(CommandError::Nul { at: 1 }, "\"a\\0b\""),
        "argument contains NUL: \"a\\0b\""
    );
    assert_eq!(frozen_message(true, "/m/x"), "froze /m/x");
    assert_eq!(frozen_message(false, "/m/x"), "thawed /m/x");
    assert_eq!(unsent_message(7, "EPERM"), "kill 7: EPERM");
    assert_eq!(invalid_component("a/../b"), "invalid path component in 'a/../b'");
    assert_eq!(setup_message(Setup::Needed, "/m/b"), "setup needed: /m/b missing");
    assert_eq!(setup_message(Setup::Fine, "/m/b"), "setup ok: /m/b");
    assert_eq!(setup_message(Setup::Privileged, "/m/b"), "setup done: /m/b");
    assert_eq!(setup_message(Setup::Escalate, "/m/b"), "setup done (escalated)");
    assert_eq!(escalating_message(), "escalating via pkexec...");
    assert_eq!(clean_escalated_message(), "clean done (escalated)");
    assert_eq!(clean_lines(&Clean::Nothing), ["nothing to do: no cgrun cgroups"]);
    assert!(clean_lines(&Clean::Remove).is_empty());
    assert_eq!(clean_lines(&cmd_clean(&["/m/x".to_string()], false)).len(), 3);
}

#[test]
fn commands_are_checked() {
    let cmd = |v: &[&str]| v.iter().map(|s| s.to_string()).collect::<Vec<_>>();
    assert_eq!(check_command(&cmd(&["ls", "-l"])), Ok(()));
    assert_eq!(check_command(&[]), Err(CommandError::Empty));
    assert_eq!(check_command(&cmd(&["ls", "a\0b"])), Err(CommandError::Nul { at: 1 }));
}

#[test]
fn children_wait_for_their_cgroup() {
    let denied = [cause(IoKind::PermissionDenied, None)];
    let other = [cause(IoKind::Other, Some(95))];
    assert_eq!(after_move(None, false, false), Parent::Wake);
    assert_eq!(after_move(Some(&denied), true, false), Parent::Escalate);
    assert_eq!(after_move(Some(&denied), false, false), Parent::Abort);
    assert_eq!(after_move(Some(&denied), true, true), Parent::Abort);
    assert_eq!(after_move(Some(&other), true, false), Parent::Abort);
    assert_eq!(after_escalated_move(true), Parent::Wake);
    assert_eq!(after_escalated_move(false), Parent::Abort);
    assert_eq!(child_goes_on(Some(1)), Ok(()));
    assert_eq!(child_goes_on(Some(0)), Err(NOT_MOVED));
    assert_eq!(child_goes_on(None), Err(125));
    assert_eq!(NOT_EXECUTED, 127);
    assert_eq!(move_failed("/m/a/x", &denied), "move to /m/a/x");
    assert_eq!(
        move_failed("/m/a/x", &other),
        "move to /m/a/x: Operation not supported — delegation not properly enabled (parent /m/a must be writable, have controllers in cgroup.controllers and +controllers in cgroup.subtree_control, and satisfy no-internal-process: no tasks in the parent when it has children)"
    );
}

#[test]
fn exit_codes() {
    assert_eq!(exit_code(Waited::Exited(3)), Some(3));
    assert_eq!(exit_code(Waited::Signaled(Signal::kill())), Some(137));
    assert_eq!(exit_code(Waited::Signaled(Signal::interrupt())), Some(130));
    assert_eq!(exit_code(Waited::Other), None);
}

#[test]
fn grace() {
    assert!(matches!(graceful_kill(0), GraceStart::Kill));
    match graceful_kill(2) {
        GraceStart::Signal(sig) => assert_eq!(sig.number(), 15),
        GraceStart::Kill => unreachable!(),
    }
    assert!(matches!(after_run(true, 2), AfterRun::Keep));
    assert!(matches!(after_run(false, 0), AfterRun::Remove(GraceStart::Kill)));
    assert!(matches!(after_run(false, 2), AfterRun::Remove(GraceStart::Signal(_))));
    assert_eq!(grace_step(2, 1, Some("7\n")), GraceStep::Wait(100));
    assert_eq!(grace_step(2, 1, None), GraceStep::Wait(100));
    assert_eq!(grace_step(2, 1, Some("\n")), GraceStep::Gone);
    assert_eq!(grace_step(2, 2, Some("")), GraceStep::Kill);
    assert_eq!(running_message("/m/x", true), "running in /m/x (persistent=true)");
    assert_eq!(running_message("/m/x", false), "running in /m/x (persistent=false)");
}

#[test]
fn resolve_cgroup_rejects_plain_dirs() {
    let root = "/tmp/cgrun-resolve";
    assert!(resolve_cgroup(root, "plain", false).is_err());
    assert!(resolve_cgroup(root, "missing", false).is_err());
    assert!(resolve_cgroup(root, "real.scope", true).is_ok());
}

#[test]
fn resolving() {
    let m = "/sys/fs/cgroup";
    assert_eq!(locate(m, "a/b"), Ok("/sys/fs/cgroup/a/b".to_string()));
    assert_eq!(locate(m, "/sys/fs/cgroup/a"), Ok("/sys/fs/cgroup/a".to_string()));
    assert_eq!(locate(m, " "), Err(ResolveError::Blank));
    assert_eq!(locate(m, "a/../b"), Err(ResolveError::Invalid));
    assert_eq!(locate(m, "/etc"), Err(ResolveError::Outside));
    assert_eq!(locate(m, "/sys/fs/cgroup/../x"), Err(ResolveError::Invalid));
    assert_eq!(resolve_cgroup(m, "a", false), Err(ResolveError::NotCgroup));
    assert_eq!(resolve_message(ResolveError::Blank, m, " "), "invalid cgroup path ''");
    assert_eq!(resolve_message(ResolveError::Invalid, m, ".."), "invalid cgroup path '..'");
    assert_eq!(
        resolve_message(ResolveError::Outside, m, "/etc"),
        "invalid cgroup path '/etc': outside /sys/fs/cgroup"
    );
    assert_eq!(
        resolve_message(ResolveError::NotCgroup, m, "a"),
        "not a cgroup: /sys/fs/cgroup/a"
    );
}

#[test]
fn the_root_is_not_touched() {
    assert_eq!(check_target("/m", "/m/", true), Err(Refusal::Root));
    assert_eq!(check_target("/m", "/m/a", false), Err(Refusal::Missing));
    assert_eq!(check_target("/m", "/m/a", true), Ok(()));
    assert_eq!(
        refusal_message(Refusal::Root, "signal", "/m", "/m/"),
        "refusing to signal the cgroup root /m"
    );
    assert_eq!(
        refusal_message(Refusal::Missing, "freeze", "/m", "/m/a"),
        "cgroup not found: /m/a"
    );
}

#[test]
fn setting_up() {
    assert_eq!(cmd_setup(true, false, false), Setup::Needed);
    assert_eq!(cmd_setup(true, true, true), Setup::Fine);
    assert_eq!(cmd_setup(false, true, true), Setup::Privileged);
    assert_eq!(cmd_setup(false, false, false), Setup::Escalate);
    assert_eq!(invalid_base(".."), "invalid base '..'");
}

fn options() -> Options {
    Options {
        setup_base: None,
        create: None,
        clean: None,
        owner_uid: None,
        owner_gid: None,
        move_rel: None,
        move_pid: None,
    }
}

#[test]
fn requests() {
    let some = || Some("x".to_string());
    let o = Options { setup_base: some(), owner_uid: Some(1), owner_gid: Some(2), ..options() };
    match cmd_privileged(true, o).unwrap() {
        Request::Setup { base, uid, gid } => assert_eq!((base.as_str(), uid, gid), ("x", 1, 2)),
        _ => unreachable!(),
    }
    let o = Options { create: some(), owner_uid: Some(1), owner_gid: Some(2), ..options() };
    match cmd_privileged(true, o).unwrap() {
        Request::Create { rel, uid, gid } => assert_eq!((rel.as_str(), uid, gid), ("x", 1, 2)),
        _ => unreachable!(),
    }
    let o = Options { clean: some(), owner_uid: Some(0), ..options() };
    match cmd_privileged(true, o).unwrap() {
        Request::Clean { base, uid } => assert_eq!((base.as_str(), uid), ("x", 0)),
        _ => unreachable!(),
    }
    let o = Options { move_rel: some(), move_pid: Some(7), ..options() };
    match cmd_privileged(true, o).unwrap() {
        Request::Move { rel, pid } => assert_eq!((rel.as_str(), pid), ("x", 7)),
        _ => unreachable!(),
    }
}

#[test]
fn faulty_requests() {
    let some = || Some("x".to_string());
    for (o, e, text) in [
        (options(), RequestError::Nothing, "privileged: no operation given"),
        (
            Options { setup_base: some(), ..options() },
            RequestError::SetupUid,
            "--setup-base requires --owner-uid",
        ),
        (
            Options { setup_base: some(), owner_uid: Some(1), ..options() },
            RequestError::SetupGid,
            "--setup-base requires --owner-gid",
        ),
        (
            Options { create: some(), owner_gid: Some(1), ..options() },
            RequestError::CreateUid,
            "--create requires --owner-uid",
        ),
        (
            Options { create: some(), owner_uid: Some(1), ..options() },
            RequestError::CreateGid,
            "--create requires --owner-gid",
        ),
        (
            Options { clean: some(), ..options() },
            RequestError::CleanUid,
            "--clean requires --owner-uid (pass 0 as real root to clean all)",
        ),
        (
            Options { move_rel: some(), ..options() },
            RequestError::MovePid,
            "--move requires --move-pid",
        ),
        (
            Options { move_pid: Some(1), ..options() },
            RequestError::MoveRel,
            "--move-pid requires --move",
        ),
        (
            Options { create: some(), clean: some(), ..options() },
            RequestError::Several,
            "privileged: pass exactly one of --setup-base, --create, --clean, --move",
        ),
    ] {
        let got = cmd_privileged(true, o).unwrap_err();
        assert_eq!(got, e);
        assert_eq!(request_message(got), text);
    }
    let o = Options { clean: some(), owner_uid: Some(0), ..options() };
    let e = cmd_privileged(false, o).unwrap_err();
    assert_eq!(e, RequestError::NotRoot);
    assert_eq!(request_message(e), "privileged requires root");
}

#[test]
fn cleaning() {
    assert!(matches!(cmd_clean(&[], true), Clean::Nothing));
    let targets = vec!["/m/cgrun/x".to_string(), "/m/cgrun".to_string()];
    assert!(matches!(cmd_clean(&targets, true), Clean::Remove));
    match cmd_clean(&targets, false) {
        Clean::Preview(lines) => assert_eq!(
            lines,
            [
                "will delete 2 cgroup(s):",
                "  /m/cgrun/x",
                "  /m/cgrun",
                "run with --force to confirm"
            ]
        ),
        _ => unreachable!(),
    }
    assert_eq!(after_clean(0, false), CleanEnd::Done);
    assert_eq!(after_clean(1, true), CleanEnd::Left);
    assert_eq!(after_clean(1, false), CleanEnd::Escalate);
    for (answers, failed, said) in [
        ([true, true, true], 0, Some("cleaned 3 cgroup(s)".to_string())),
        ([false, true, false], 2, Some("cleaned 1 cgroup(s)".to_string())),
        ([false, false, false], 3, None),
    ] {
        let mut c = Cleaning::start(3);
        let mut tried = Vec::new();
        while let Some(i) = c.next() {
            tried.push(i);
            c.took(answers[i]);
        }
        assert_eq!(tried, [0, 1, 2]);
        assert_eq!(c.failed(), failed);
        assert_eq!(cleaned_message(&c), said);
        c.took(false);
        assert_eq!(c.failed(), failed);
    }
    assert_eq!(left_message(2, true), "could not remove 2 cgroup(s) (see errors above)");
    assert_eq!(
        left_message(2, false),
        "could not remove 2 cgroup(s) (permission denied = not yours; run as owner or root)"
    );
}
