use cgrun::cgroup::{full_cgroup_path, is_under_mount};
use cgrun::create::{lineage, privileged_create_cgroup, privileged_setup, Act, Plan, Step};
use cgrun::privilege::{
    checked_path, delegated_files, escalate_clean, escalate_create, escalate_move_to_cgroup,
    escalate_setup, escalation_failed, invoking_ids, path_message, privileged_clean_tree,
    privileged_move, rel_message, report_sweep, try_enable_all, validate_base, validate_rel,
    PathError, RelError, DELEGATED_MODE,
};

fn shown(steps: &[Step]) -> Vec<String> {
    steps.iter().map(|s| format!("{:?} {}", s.act, s.dir)).collect()
}

#[test]
fn valid_paths() {
    assert_eq!(validate_rel("cgrun/x"), Ok(()));
    assert_eq!(validate_rel("a//b/./c"), Ok(()));
    assert_eq!(validate_rel(" a"), Ok(()));
    assert_eq!(validate_base("cgrun"), Ok(()));
}

#[test]
fn faulty_paths() {
    assert_eq!(validate_rel(""), Err(RelError::Blank));
    assert_eq!(validate_rel(" \t"), Err(RelError::Blank));
    assert_eq!(validate_rel("/a"), Err(RelError::Absolute));
    assert_eq!(validate_rel("a/../b"), Err(RelError::Component));
    assert_eq!(validate_rel(".."), Err(RelError::Component));
    assert_eq!(validate_rel("./a"), Err(RelError::Component));
    assert_eq!(validate_base("../x"), Err(RelError::Component));
    assert_eq!(rel_message(RelError::Blank, " "), "invalid cgroup path ''");
    assert_eq!(rel_message(RelError::Absolute, "/a"), "invalid cgroup path '/a': must be relative");
    assert_eq!(rel_message(RelError::Component, ".."), "invalid cgroup path '..'");
    assert_eq!(
        path_message(PathError::Escapes, "x"),
        "invalid cgroup path 'x': escapes the cgroup mount"
    );
    assert_eq!(path_message(PathError::Rel(RelError::Blank), ""), "invalid cgroup path ''");
}

#[test]
fn valid_paths_stay_below() {
    assert_eq!(checked_path("/sys/fs/cgroup", "a/b"), Ok("/sys/fs/cgroup/a/b".to_string()));
    assert_eq!(checked_path("/m", "/a"), Err(PathError::Rel(RelError::Absolute)));
    for rel in ["./a", "/a", "..", "a/../..", ""] {
        assert!(is_under_mount("/m", &full_cgroup_path("/m", rel)));
    }
}

#[test]
fn setups() {
    let steps = privileged_setup("/m", "cgrun", false).unwrap();
    assert_eq!(shown(&steps), ["Create /m/cgrun", "Enable /m", "Delegate /m/cgrun"]);
    let steps = privileged_setup("/m", "cgrun", true).unwrap();
    assert_eq!(shown(&steps), ["Create /m/cgrun", "Enable /m"]);
    assert_eq!(
        privileged_setup("/m", "..", false).unwrap_err(),
        PathError::Rel(RelError::Component)
    );
}

#[test]
fn creations() {
    assert_eq!(lineage("a/b/c"), vec!["a/b/c", "a/b", "a"]);
    let Plan { steps, stop } = privileged_create_cgroup("/m", "cgrun/x", &[false, true]);
    assert!(stop.is_none());
    assert_eq!(
        shown(&steps),
        ["Enable /m", "Enable /m/cgrun", "Create /m/cgrun/x", "Delegate /m/cgrun/x"]
    );
    let Plan { steps, stop } = privileged_create_cgroup("/m", "cgrun/x", &[false, false]);
    assert!(stop.is_none());
    assert_eq!(
        shown(&steps),
        [
            "Enable /m",
            "Enable /m",
            "Create /m/cgrun",
            "Delegate /m/cgrun",
            "Enable /m/cgrun",
            "Create /m/cgrun/x",
            "Delegate /m/cgrun/x",
        ]
    );
    let plan = privileged_create_cgroup("/m", "cgrun/x", &[true, true]);
    assert!(plan.steps.iter().all(|s| s.act != Act::Delegate));
}

#[test]
fn creations_that_stop() {
    let plan = privileged_create_cgroup("/m", "../x", &[]);
    assert!(plan.steps.is_empty());
    assert_eq!(plan.stop.unwrap().error, PathError::Rel(RelError::Component));
    let plan = privileged_create_cgroup("/m", " /x", &[false, false]);
    assert_eq!(shown(&plan.steps), ["Enable /m"]);
    let stop = plan.stop.unwrap();
    assert_eq!(stop.at, 1);
    assert_eq!(stop.error, PathError::Rel(RelError::Blank));
}

#[test]
fn managed_controllers() {
    assert_eq!(
        try_enable_all(Some("cpuset cpu io memory dmem pids"), "memory"),
        Some("+cpu +dmem".to_string())
    );
    assert_eq!(try_enable_all(Some("cpuset pids"), ""), None);
    assert_eq!(try_enable_all(None, ""), None);
    assert_eq!(delegated_files().len(), 16);
    assert_eq!(delegated_files()[0], "cgroup.procs");
    assert_eq!(DELEGATED_MODE, 0o775);
}

#[test]
fn sweeps_spare_others() {
    let owners = [Some(1000), Some(0), None, Some(1000)];
    let s = privileged_clean_tree("cgrun", 1000, &owners).unwrap();
    assert_eq!(s.remove, [0, 3]);
    assert_eq!(s.skipped, 2);
    let s = privileged_clean_tree("cgrun", 0, &owners).unwrap();
    assert_eq!(s.remove, [0, 1, 2, 3]);
    assert_eq!(s.skipped, 0);
    assert_eq!(privileged_clean_tree("/x", 0, &owners).unwrap_err(), RelError::Absolute);
    assert_eq!(report_sweep(&[], 0), Ok(None));
    assert_eq!(
        report_sweep(&[], 2),
        Ok(Some("skipped 2 cgroup(s) owned by other users".to_string()))
    );
    assert_eq!(
        report_sweep(&["/a: x".to_string(), "/b: y".to_string()], 2),
        Err("could not remove: /a: x, /b: y".to_string())
    );
}

#[test]
fn moves() {
    let (dir, s) = privileged_move("/m", "cgrun/x", 42).unwrap();
    assert_eq!(dir, "/m/cgrun/x");
    assert_eq!(s.file, "cgroup.procs");
    assert_eq!(s.body, "42\n");
    assert!(privileged_move("/m", "..", 42).is_err());
    assert_eq!(
        escalate_move_to_cgroup("cgrun/x", 42).unwrap(),
        ["privileged", "--move", "cgrun/x", "--move-pid", "42"]
    );
    assert_eq!(escalate_move_to_cgroup("", 42).unwrap_err(), RelError::Blank);
}

#[test]
fn privileged_calls() {
    assert_eq!(
        escalate_setup("cgrun", 1000, 100),
        ["privileged", "--setup-base", "cgrun", "--owner-uid", "1000", "--owner-gid", "100"]
    );
    assert_eq!(
        escalate_create("cgrun/x", 1000, 100),
        ["privileged", "--create", "cgrun/x", "--owner-uid", "1000", "--owner-gid", "100"]
    );
    assert_eq!(
        escalate_clean("cgrun", 1000),
        ["privileged", "--clean", "cgrun", "--owner-uid", "1000"]
    );
    assert_eq!(
        escalation_failed("exit status: 126", "/bin/cgrun"),
        "pkexec failed (exit status: 126): run `pkexec /bin/cgrun setup` once to delegate cgrun"
    );
}

#[test]
fn whose_behalf() {
    assert_eq!(
        invoking_ids(false, (1000, 100), Some("1"), Some("2"), Some("3"), Some("4")),
        (1000, 100)
    );
    assert_eq!(
        invoking_ids(true, (0, 0), Some("1001"), Some("2"), None, Some("4")),
        (1001, 4)
    );
    assert_eq!(
        invoking_ids(true, (0, 7), Some("x"), Some("+5"), Some("4294967296"), Some("-1")),
        (5, 7)
    );
}
