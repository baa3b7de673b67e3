use cgrun::cgroup::{
    current_cgroup_rel, enable_controllers, find_cgroup2_mount, full_cgroup_path,
    is_transient_leaf_name, is_under_mount, members, pid_in_tree, read_controllers,
    read_subtree_control, tree_pids, tree_rel, under_any_base, write_cgroup_procs, ProcsRead,
};
use cgrun::fault::{
    is_delegation_error, is_enotsup, is_in_use, is_not_found, is_permission_error, IoCause, IoKind,
};
use cgrun::kill::{
    after_removal, after_signal, denied_message, is_cgrun_target, kept_message, remains_message,
    removed_message, signal_cgroup, AfterRemoval, AfterSignal, ROOT_BASE,
};
use cgrun::list::{cmd_list, cmd_ps, rows_cgrun, RowRead};
use cgrun::signal::Signal;
use cgrun::subtree::Subtree;
use cgrun::walk::{find_cgrun_cgroups, Entry, Walk};

fn cause(kind: IoKind, raw: Option<i32>) -> IoCause {
    IoCause { kind, raw }
}

fn text(s: &str) -> ProcsRead {
    ProcsRead::Text(s.to_string())
}

#[test]
fn transient_names() {
    assert!(is_transient_leaf_name("cgrun-1234-ab12.scope"));
    assert!(is_transient_leaf_name("cgrun-71217-70fb.scope"));
    assert!(!is_transient_leaf_name("cgrun-1234-abc.scope")); // rnd must be 4 hex
    assert!(!is_transient_leaf_name("cgrun-abc-ab12.scope")); // pid must be numeric
    assert!(!is_transient_leaf_name("cgrun-1234-ab12")); // no .scope suffix
    assert!(!is_transient_leaf_name("mygame"));
    assert!(!is_transient_leaf_name("cgrun.slice"));
}

#[test]
fn more_transient_names() {
    assert!(is_transient_leaf_name("cgrun-0-FFFF.scope"));
    assert!(!is_transient_leaf_name("cgrun--ab12.scope"));
    assert!(!is_transient_leaf_name("cgrun-1-2-ab12.scope"));
    assert!(!is_transient_leaf_name("cgrun-1234-ab12x.scope"));
    assert!(!is_transient_leaf_name("cgrun-1234-ab1g.scope"));
    assert!(!is_transient_leaf_name("xcgrun-1234-ab12.scope"));
    assert!(!is_transient_leaf_name(""));
}

#[test]
fn cgrun_target_scope() {
    let mount = "/sys/fs/cgroup";
    let at = |rel: &str| full_cgroup_path(mount, rel);
    assert!(is_cgrun_target(mount, "cgrun", &at("cgrun/mygame")));
    assert!(is_cgrun_target(mount, "cgrun", &at("cgrun")));
    assert!(is_cgrun_target(mount, "cgrun", &at("user.slice/cgrun-1-ab12.scope")));
    assert!(!is_cgrun_target(mount, "cgrun", &at("user.slice/app.scope")));
    assert!(!is_cgrun_target(mount, "cgrun", &at("cgrunevil")));
    assert!(!is_cgrun_target(mount, "cgrun", mount));
    assert!(!is_cgrun_target(mount, "cgrun", "/other/cgrun-1-ab12.scope"));
    // Custom base is honored instead of the hardcoded default.
    assert!(is_cgrun_target(mount, "custom", &at("custom/mygame")));
    assert!(!is_cgrun_target(mount, "custom", &at("cgrun/mygame")));
    // Bare `cgrun-*` without transient shape is not a target.
    assert!(!is_cgrun_target(mount, "cgrun", &at("cgrun-backup")));
    // The root-run tree is always ours, whatever the configured base.
    assert!(is_cgrun_target(mount, "cgrun", &at("cgrun-root/batch")));
    assert!(is_cgrun_target(mount, "custom", &at("cgrun-root/batch")));
}

#[test]
fn signal_cgroup_removes_owned_keeps_foreign() {
    let root = "/tmp/cgrun-kill";
    let owned = signal_cgroup(
        root,
        "cgrun",
        "/tmp/cgrun-kill/cgrun/cgrun-1-ab12.scope",
        Signal::kill(),
    );
    assert!(owned.owned && owned.kill);
    assert_eq!(after_signal(owned.owned, None), AfterSignal::Remove);
    assert_eq!(after_removal(None), AfterRemoval::Removed);

    let foreign = signal_cgroup(root, "cgrun", "/tmp/cgrun-kill/other.scope", Signal::term());
    assert!(!foreign.owned && !foreign.kill);
    assert_eq!(after_signal(foreign.owned, None), AfterSignal::Keep);

    let lookalike = signal_cgroup(root, "cgrun", "/tmp/cgrun-kill/cgrun-backup", Signal::term());
    assert_eq!(after_signal(lookalike.owned, None), AfterSignal::Keep);
}

#[test]
fn failed_signals_and_removals() {
    let unsupported = [cause(IoKind::Other, Some(95))];
    let denied = [cause(IoKind::PermissionDenied, Some(13))];
    let busy = [cause(IoKind::ResourceBusy, Some(16))];
    assert_eq!(after_signal(true, Some(&unsupported)), AfterSignal::Remove);
    assert_eq!(after_signal(false, Some(&unsupported)), AfterSignal::Fail);
    assert_eq!(after_signal(true, Some(&denied)), AfterSignal::Fail);
    assert_eq!(after_removal(Some(&denied)), AfterRemoval::Denied);
    assert_eq!(after_removal(Some(&busy)), AfterRemoval::Remains);
    assert_eq!(
        denied_message("/c/x", "SIGTERM"),
        "signaled /c/x with SIGTERM, but cannot remove it: permission denied (not yours?)"
    );
    assert_eq!(
        remains_message("/c/x", "SIGTERM", Some("1\n22\n"), "cgroup busy: /c/x"),
        "signaled /c/x with SIGTERM, but 2 process(es) remain — cgroup not removed (use -s KILL to force): cgroup busy: /c/x"
    );
    assert_eq!(
        remains_message("/c/x", "SIGHUP", None, "e"),
        "signaled /c/x with SIGHUP, but unknown process(es) remain — cgroup not removed (use -s KILL to force): e"
    );
    assert_eq!(removed_message("/c/x", "SIGKILL"), "signaled /c/x with SIGKILL and removed it");
    assert_eq!(
        kept_message("/c/x", "SIGKILL"),
        "signaled /c/x with SIGKILL (kept: not a cgrun cgroup)"
    );
}

#[test]
fn kinds_of_failure() {
    for raw in [1, 13] {
        assert!(is_permission_error(&[cause(IoKind::Other, Some(raw))]));
        assert!(is_delegation_error(&[cause(IoKind::Other, Some(raw))]));
    }
    assert!(is_permission_error(&[
        cause(IoKind::Other, None),
        cause(IoKind::PermissionDenied, None)
    ]));
    assert!(!is_permission_error(&[cause(IoKind::Other, Some(16))]));
    assert!(is_delegation_error(&[cause(IoKind::Other, Some(16))]));
    assert!(is_delegation_error(&[cause(IoKind::ResourceBusy, None)]));
    assert!(!is_delegation_error(&[cause(IoKind::Other, Some(39))]));
    assert!(is_in_use(&cause(IoKind::Other, Some(16))));
    assert!(is_in_use(&cause(IoKind::Other, Some(39))));
    assert!(is_in_use(&cause(IoKind::DirectoryNotEmpty, None)));
    assert!(!is_in_use(&cause(IoKind::NotFound, Some(2))));
    assert!(is_not_found(&[cause(IoKind::NotFound, None)]));
    assert!(!is_not_found(&[cause(IoKind::Other, Some(2))]));
    assert!(is_enotsup(&[cause(IoKind::Other, Some(95))]));
    assert!(!is_enotsup(&[cause(IoKind::Other, Some(94))]));
    assert!(!is_permission_error(&[]));
}

#[test]
fn mounts() {
    assert_eq!(find_cgroup2_mount(true, ""), Some("/sys/fs/cgroup".to_string()));
    let info = "22 1 0:20 / /sys rw - sysfs sysfs rw\n\
                31 22 0:26 / /sys/fs/cg2 rw,nosuid shared:4 - cgroup2 cgroup2 rw\n";
    assert_eq!(find_cgroup2_mount(false, info), Some("/sys/fs/cg2".to_string()));
    assert_eq!(find_cgroup2_mount(false, "1 2 3 4 - cgroup2 x\n"), None);
    assert_eq!(find_cgroup2_mount(false, "1 2 3 4 /x\n"), None);
}

#[test]
fn current_cgroups() {
    let data = "1:name=x:/y\n0::/user.slice/app.scope (deleted)\n";
    assert_eq!(current_cgroup_rel(data), Some("user.slice/app.scope".to_string()));
    assert_eq!(current_cgroup_rel("0::/\n"), Some(String::new()));
    assert_eq!(current_cgroup_rel("1:cpu:/a\n"), None);
}

#[test]
fn full_paths() {
    assert_eq!(full_cgroup_path("/sys/fs/cgroup", "a/b"), "/sys/fs/cgroup/a/b");
    assert_eq!(full_cgroup_path("/sys/fs/cgroup", "//a"), "/sys/fs/cgroup/a");
    assert_eq!(full_cgroup_path("/sys/fs/cgroup", "/"), "/sys/fs/cgroup");
    assert_eq!(full_cgroup_path("/m/", "a"), "/m/a");
    assert!(is_under_mount("/sys/fs/cgroup", "/sys/fs/cgroup"));
    assert!(is_under_mount("/sys/fs/cgroup", "/sys//fs/./cgroup/x"));
    assert!(!is_under_mount("/sys/fs/cgroup", "/sys/fs/cgroups"));
    assert!(!is_under_mount("/sys/fs/cgroup", "sys/fs/cgroup/x"));
    assert_eq!(tree_rel("/m", "/m/a/b/"), "a/b");
    assert_eq!(tree_rel("/m", "/n/a"), "");
}

#[test]
fn controllers() {
    assert_eq!(read_controllers("cpu memory\n"), vec!["cpu", "memory"]);
    assert!(read_controllers("\n").is_empty());
    assert_eq!(
        enable_controllers("cpu\n", &["dmem", "cpu", "memory"]),
        Some("+dmem +memory".to_string())
    );
    assert_eq!(enable_controllers("cpu memory", &["memory"]), None);
    assert_eq!(enable_controllers("", &[]), None);
    assert_eq!(read_subtree_control(Ok("cpu".to_string())).unwrap(), "cpu");
    assert_eq!(read_subtree_control(Err(cause(IoKind::NotFound, None))).unwrap(), "");
    assert!(read_subtree_control(Err(cause(IoKind::PermissionDenied, None))).is_err());
}

#[test]
fn processes() {
    assert_eq!(members("1\n 22 \nx\n\n-3\n"), vec![1, 22, -3]);
    assert_eq!(write_cgroup_procs(4321), "4321\n");
    assert_eq!(members(&write_cgroup_procs(-7)), vec![-7]);
    let gone = ProcsRead::Refused(vec![cause(IoKind::NotFound, None)]);
    let denied = ProcsRead::Refused(vec![cause(IoKind::PermissionDenied, None)]);
    assert_eq!(tree_pids(&[text("1\n2\n"), gone, text("3\n")]), Ok(vec![1, 2, 3]));
    assert_eq!(tree_pids(&[text("1\n"), denied]), Err(1));
}

#[test]
fn membership() {
    let data = Some("2:cpu:/x\n0::/cgrun/a/sub\n");
    assert!(pid_in_tree("cgrun/a", data));
    assert!(pid_in_tree("cgrun/a/sub", data));
    assert!(pid_in_tree("", data));
    assert!(!pid_in_tree("cgrun/a/s", data));
    assert!(!pid_in_tree("x", data));
    assert!(!pid_in_tree("cgrun/a", None));
    assert!(under_any_base("cgrun/x", &["other", "/cgrun/"]));
    assert!(!under_any_base("cgrunx", &["cgrun"]));
    assert!(!under_any_base("x", &["", "/"]));
}

fn dir(id: usize, name: &str, is_cgroup: bool) -> Entry {
    Entry { id, name: name.to_string(), is_dir: true, is_cgroup }
}

#[test]
fn walk_finds_base_tree_and_scattered_leaves() {
    let mut walk = Walk::start(&["cgrun", ROOT_BASE]);
    while let Some(at) = walk.next() {
        let entries = match at.rel.as_str() {
            "" => vec![dir(1, "cgrun", false), dir(2, "cgrun-root", false), dir(3, "user.slice", false)],
            "cgrun" => vec![dir(4, "mygame", true), dir(5, "cgrun-9-00ff.scope", true)],
            "cgrun-root" => vec![dir(6, "batch", true)],
            "user.slice" => vec![
                dir(7, "cgrun-71217-70fb.scope", true),
                dir(8, "app.scope", true),
                dir(9, "empty", false),
            ],
            _ => vec![Entry {
                id: 100,
                name: "cgroup.procs".to_string(),
                is_dir: false,
                is_cgroup: false,
            }],
        };
        walk.visit(&at, &entries);
    }
    let found = find_cgrun_cgroups(walk);
    let rels: Vec<&str> = found.iter().map(|f| f.rel.as_str()).collect();
    assert_eq!(
        rels,
        [
            "cgrun/cgrun-9-00ff.scope",
            "cgrun/mygame",
            "cgrun-root/batch",
            "user.slice/cgrun-71217-70fb.scope",
        ]
    );
    assert_eq!(found[0].id, 5);

    let procs = ["300\n", "100\n200\n", "600\n", "400\n"];
    let reads: Vec<RowRead> = found
        .iter()
        .zip(procs)
        .map(|(f, p)| RowRead { rel: f.rel.clone(), procs: Some(p.to_string()), controllers: None })
        .collect();
    let rows = rows_cgrun(&reads);
    assert_eq!(rows.len(), 4);
    assert_eq!(rows[0].kind, "transient");
    assert_eq!(rows[1].kind, "persistent");
    assert_eq!(rows[1].pids, 2);
}

#[test]
fn children_come_before_parents() {
    let mut walk = Walk::start(&["cgrun"]);
    while let Some(at) = walk.next() {
        let entries = match at.rel.as_str() {
            "" => vec![dir(1, "cgrun", true)],
            "cgrun" => vec![dir(2, "a", true), dir(3, "b", true)],
            "cgrun/a" => vec![dir(4, "deep", true)],
            _ => Vec::new(),
        };
        walk.visit(&at, &entries);
    }
    let ids: Vec<usize> = find_cgrun_cgroups(walk).iter().map(|f| f.id).collect();
    assert_eq!(ids, [4, 2, 3, 1]);
}

#[test]
fn walks_end_at_a_depth() {
    let mut walk = Walk::start(&["cgrun"]);
    let mut listed = 0;
    while let Some(at) = walk.next() {
        listed += 1;
        walk.visit(&at, &[dir(listed, "cgrun", true)]);
    }
    assert_eq!(listed, 129);
    let found = find_cgrun_cgroups(walk);
    assert_eq!(found.len(), 129);
    assert_eq!(found[0].depth, 129);
    assert_eq!(found[128].depth, 1);
}

#[test]
fn lists() {
    assert_eq!(cmd_list(&[]), vec!["(no cgrun cgroups)"]);
    let rows = rows_cgrun(&[
        RowRead {
            rel: "cgrun-root/batch".to_string(),
            procs: None,
            controllers: Some("cpu memory\n".to_string()),
        },
        RowRead { rel: "cgrun/x".to_string(), procs: Some("5\n".to_string()), controllers: None },
    ]);
    assert_eq!(rows[0].rel, "cgrun/x");
    let lines = cmd_list(&rows);
    assert_eq!(
        lines[0],
        format!("{:<56} {:<10} {:>4}  CONTROLLERS", "CGROUP", "KIND", "PIDS")
    );
    assert_eq!(lines[1], format!("{:<56} {:<10} {:>4}  {}", "cgrun/x", "persistent", 1, "-"));
    assert_eq!(
        lines[2],
        format!("{:<56} {:<10} {:>4}  {}", "cgrun-root/batch", "persistent", 0, "cpu memory")
    );
    let long = "é".repeat(60);
    let rows = rows_cgrun(&[RowRead { rel: long.clone(), procs: None, controllers: None }]);
    assert_eq!(cmd_list(&rows)[1], format!("{:<56} {:<10} {:>4}  -", long, "persistent", 0));
}

#[test]
fn process_lists() {
    let denied = ProcsRead::Refused(vec![cause(IoKind::PermissionDenied, None)]);
    assert_eq!(
        cmd_ps("/m/a", &[text("7\n"), denied, text("8\n9\n")]),
        vec!["members of /m/a (whole tree):", "7", "8", "9"]
    );
    assert_eq!(cmd_ps("/m/a", &[text("\n")]), vec!["(empty) /m/a"]);
}

#[test]
fn subtrees_are_whole() {
    let mut tree = Subtree::start();
    while let Some(at) = tree.next() {
        let mut entries = match at.rel.as_str() {
            "" => vec![dir(1, "a", true), dir(2, "b", false)],
            "a" => vec![dir(3, "b", true)],
            "a/b" => vec![dir(4, "c", true)],
            _ => Vec::new(),
        };
        entries.push(Entry {
            id: 100,
            name: "cgroup.procs".to_string(),
            is_dir: false,
            is_cgroup: false,
        });
        tree.visit(at, &entries);
    }
    let mut found: Vec<(usize, String)> =
        tree.dirs().into_iter().map(|d| (d.id, d.rel)).collect();
    assert_eq!(found[0], (0, String::new()));
    found.sort();
    let rels: Vec<&str> = found.iter().map(|(_, r)| r.as_str()).collect();
    assert_eq!(rels, ["", "a", "b", "a/b", "a/b/c"]);
}

#[test]
fn walks_find_each_once_and_in_strict_order() {
    let mut walk = Walk::start(&["cgrun", ROOT_BASE]);
    while let Some(at) = walk.next() {
        let entries = match at.depth {
            0 => vec![dir(1, "cgrun", true), dir(2, "cgrun-1-ab12.scope", true)],
            1 => vec![dir(3, "x", true), dir(4, "cgrun-1-ab12.scope", true)],
            _ => Vec::new(),
        };
        walk.visit(&at, &entries);
    }
    let found = find_cgrun_cgroups(walk);
    let rels: Vec<&str> = found.iter().map(|f| f.rel.as_str()).collect();
    assert_eq!(
        rels,
        [
            "cgrun/cgrun-1-ab12.scope",
            "cgrun/x",
            "cgrun-1-ab12.scope/cgrun-1-ab12.scope",
            "cgrun",
            "cgrun-1-ab12.scope",
        ]
    );
    for rel in rels {
        assert!(is_cgrun_target("/m", "cgrun", &full_cgroup_path("/m", rel)));
    }
}
