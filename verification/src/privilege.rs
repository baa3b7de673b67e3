//! What privileged work may touch: paths that stay below the mount, owners that
//! stay apart, and the order in which cgroups are created and handed over.

use vstd::prelude::*;

use crate::cgroup::{
    all_on, enable_controllers, full_cgroup_path, full_path, is_under_mount,
    law_missing_controllers_are_requested, switch_on, write_cgroup_procs,
};
use crate::control::{Setting, SettingText};
use crate::number::{
    decimal, law_decimals_are_read, parse_unsigned, show, show_signed, signed_decimal, unsigned,
    within,
};
use crate::path::{
    components, is_name, law_path_of_segments, leads_with_dot, lemma_joined_components,
    lemma_joined_under, lemma_segment_stands, lies_under, parts, pieces, Component, Kind,
};
use crate::text::{
    chars, front_stripped, join_texts, joined_texts, law_words_are_unbroken, owned, same,
    split_words, text_in, trim, trimmed, unbroken, words, Margin,
};

verus! {

/// Why a path is no path of a cgroup below the mount.
#[derive(Clone, Copy, Debug, PartialEq, Eq, Structural)]
pub enum RelError {
    /// Nothing but white space.
    Blank,
    /// It begins with a slash.
    Absolute,
    /// It has a component that is no name.
    Component,
}

/// Whether every component of `p` is a name.
pub open spec fn only_names(p: Seq<char>) -> bool {
    forall|i: int| 0 <= i < parts(p).len() ==> (#[trigger] parts(p)[i]).kind == Kind::Name
}

/// What is wrong with `rel` as a path below the mount.
pub open spec fn rel_fault(rel: Seq<char>) -> Option<RelError> {
    if trimmed(rel).len() == 0 {
        Some(RelError::Blank)
    } else if rel[0] == '/' {
        Some(RelError::Absolute)
    } else if !only_names(rel) {
        Some(RelError::Component)
    } else {
        None
    }
}

/// Checks that a path lies below the mount whatever the mount: not blank,
/// relative, and made of names alone.
pub fn validate_rel(rel: &str) -> (r: Result<(), RelError>)
    ensures
        match r {
            Ok(_) => rel_fault(rel@) is None,
            Err(e) => rel_fault(rel@) == Some(e),
        },
{
    if trim(rel).is_empty() {
        return Err(RelError::Blank);
    }
    let cs = chars(rel);
    proof {
        if rel@.len() == 0 {
            assert(trimmed(rel@) =~= rel@);
        }
    }
    if cs[0] == '/' {
        return Err(RelError::Absolute);
    }
    let xs = pieces(rel);
    let mut i: usize = 0;
    while i < xs.len()
        invariant
            i <= xs.len(),
            xs.deep_view() == parts(rel@),
            trimmed(rel@).len() > 0,
            rel@[0] != '/',
            forall|j: int| 0 <= j < i ==> (#[trigger] parts(rel@)[j]).kind == Kind::Name,
        decreases xs.len() - i,
    {
        assert(xs.deep_view()[i as int] == xs@[i as int]@);
        if xs[i].kind != Kind::Name {
            assert(parts(rel@)[i as int].kind != Kind::Name);
            return Err(RelError::Component);
        }
        i = i + 1;
    }
    Ok(())
}

/// Checks the name of a base cgroup.
pub fn validate_base(base: &str) -> (r: Result<(), RelError>)
    ensures
        match r {
            Ok(_) => rel_fault(base@) is None,
            Err(e) => rel_fault(base@) == Some(e),
        },
{
    validate_rel(base)
}

/// Says what is wrong with a path below the mount.
pub open spec fn rel_complaint(e: RelError, rel: Seq<char>) -> Seq<char> {
    match e {
        RelError::Blank => "invalid cgroup path ''"@,
        RelError::Absolute => "invalid cgroup path '"@ + rel + "': must be relative"@,
        RelError::Component => "invalid cgroup path '"@ + rel + "'"@,
    }
}

/// Says what is wrong with a path below the mount.
pub fn rel_message(e: RelError, rel: &str) -> (r: String)
    ensures
        r@ == rel_complaint(e, rel@),
{
    match e {
        RelError::Blank => "invalid cgroup path ''".to_owned(),
        RelError::Absolute => "invalid cgroup path '".to_owned().concat(rel).concat(
            "': must be relative",
        ),
        RelError::Component => "invalid cgroup path '".to_owned().concat(rel).concat("'"),
    }
}

/// Why a path is not worked on with privileges.
#[derive(Clone, Copy, Debug, PartialEq, Eq, Structural)]
pub enum PathError {
    /// It is no path below the mount.
    Rel(RelError),
    /// It leads out of the mount.
    Escapes,
}

/// What is wrong with working on `rel` below `mount`.
pub open spec fn path_fault(mount: Seq<char>, rel: Seq<char>) -> Option<PathError> {
    match rel_fault(rel) {
        Some(e) => Some(PathError::Rel(e)),
        None => if lies_under(mount, full_path(mount, rel)) {
            None
        } else {
            Some(PathError::Escapes)
        },
    }
}

/// The place of a cgroup, where it may be worked on.
pub fn checked_path(mount: &str, rel: &str) -> (r: Result<String, PathError>)
    ensures
        match r {
            Ok(p) => path_fault(mount@, rel@) is None && p@ == full_path(mount@, rel@),
            Err(e) => path_fault(mount@, rel@) == Some(e),
        },
{
    match validate_rel(rel) {
        Err(e) => {
            return Err(PathError::Rel(e));
        },
        Ok(_) => {},
    }
    let full = full_cgroup_path(mount, rel);
    if is_under_mount(mount, full.as_str()) {
        Ok(full)
    } else {
        Err(PathError::Escapes)
    }
}

/// Says what is wrong with working on a path.
pub open spec fn path_complaint(e: PathError, rel: Seq<char>) -> Seq<char> {
    match e {
        PathError::Rel(e) => rel_complaint(e, rel),
        PathError::Escapes => "invalid cgroup path '"@ + rel + "': escapes the cgroup mount"@,
    }
}

/// Says what is wrong with working on a path.
pub fn path_message(e: PathError, rel: &str) -> (r: String)
    ensures
        r@ == path_complaint(e, rel@),
{
    match e {
        PathError::Rel(e) => rel_message(e, rel),
        PathError::Escapes => "invalid cgroup path '".to_owned().concat(rel).concat(
            "': escapes the cgroup mount",
        ),
    }
}

/// Whether a path has something in it, is relative, and is made of names alone.
pub open spec fn names_below(rel: Seq<char>) -> bool {
    rel.len() > 0 && rel[0] != '/' && only_names(rel)
}

/// A valid path has something in it, is relative, and is made of names alone.
pub proof fn lemma_valid_names(rel: Seq<char>)
    requires
        rel_fault(rel) is None,
    ensures
        names_below(rel),
{
    if rel.len() == 0 {
        assert(trimmed(rel) =~= rel);
    }
}

/// A path of names has its place below the mount.
pub proof fn lemma_names_stay_below(mount: Seq<char>, rel: Seq<char>)
    requires
        names_below(rel),
    ensures
        lies_under(mount, full_path(mount, rel)),
        components(full_path(mount, rel)) == components(mount) + components(rel),
{
    assert(front_stripped(rel, Margin::Slash) =~= rel);
    if leads_with_dot(rel) {
        assert(parts(rel)[0].kind == Kind::Here);
    }
    lemma_joined_components(mount, rel);
    let all = components(mount) + components(rel);
    assert(all.take(components(mount).len() as int) =~= components(mount));
}

/// A path that is valid below the mount never leads out of it.
pub proof fn law_valid_paths_stay_below(mount: Seq<char>, rel: Seq<char>)
    requires
        rel_fault(rel) is None,
    ensures
        lies_under(mount, full_path(mount, rel)),
        path_fault(mount, rel) is None,
        components(full_path(mount, rel)) == components(mount) + components(rel),
{
    lemma_valid_names(rel);
    lemma_names_stay_below(mount, rel);
}

proof fn lemma_front_stripped_start(s: Seq<char>, m: Margin)
    ensures
        front_stripped(s, m).len() > 0 ==> !m.has(front_stripped(s, m)[0]),
    decreases s.len(),
{
    if s.len() > 0 && m.has(s[0]) {
        lemma_front_stripped_start(s.skip(1), m);
    }
}

/// The place of any path, valid or not, lies under the mount by its text: no
/// path that passes the other tests is refused for leading out of the mount.
pub proof fn law_full_paths_lie_under(mount: Seq<char>, rel: Seq<char>)
    ensures
        lies_under(mount, full_path(mount, rel)),
        path_fault(mount, rel) != Some(PathError::Escapes),
{
    let r = front_stripped(rel, Margin::Slash);
    lemma_front_stripped_start(rel, Margin::Slash);
    if r.len() > 0 {
        lemma_joined_under(mount, r);
    } else {
        assert(components(mount).take(components(mount).len() as int) =~= components(mount));
    }
}

/// Whether a controller is one that the runner manages.
pub open spec fn is_managed(c: Seq<char>) -> bool {
    c == "dmem"@ || c == "memory"@ || c == "cpu"@
}

/// Those of the first `n` controllers that the runner manages.
pub open spec fn managed_to(cs: Seq<Seq<char>>, n: int) -> Seq<Seq<char>>
    decreases n,
{
    if n <= 0 {
        Seq::empty()
    } else if is_managed(cs[n - 1]) {
        managed_to(cs, n - 1).push(cs[n - 1])
    } else {
        managed_to(cs, n - 1)
    }
}

/// The controllers that the runner manages, of those that the text of a
/// `cgroup.controllers` lists.
pub open spec fn managed(data: Seq<char>) -> Seq<Seq<char>> {
    managed_to(words(data), words(data).len() as int)
}

/// What to write to a `cgroup.subtree_control`, which now reads `target`, to
/// switch on every controller that the runner manages and that the text of
/// `cgroup.controllers` in `source` lists. Nothing where they all are on, or
/// where `source` could not be read.
pub fn try_enable_all(source: Option<&str>, target: &str) -> (r: Option<String>)
    ensures
        match source {
            None => r is None,
            Some(data) => match r {
                Some(body) => !all_on(managed(data@), words(target@)) && body@ == switch_on(
                    managed(data@),
                    words(target@),
                    managed(data@).len() as int,
                ),
                None => all_on(managed(data@), words(target@)),
            },
        },
{
    let data = match source {
        Some(data) => data,
        None => {
            return None;
        },
    };
    let all = split_words(data);
    let ghost names = words(data@);
    let mut some: Vec<&str> = Vec::new();
    let mut i: usize = 0;
    assert(some.deep_view() =~= managed_to(names, 0));
    while i < all.len()
        invariant
            i <= all.len(),
            all.deep_view() == names,
            some.deep_view() == managed_to(names, i as int),
        decreases all.len() - i,
    {
        let c = all[i];
        assert(names[i as int] == all@[i as int]@);
        if same(c, "dmem") || same(c, "memory") || same(c, "cpu") {
            let ghost sofar = some.deep_view();
            some.push(c);
            assert(some.deep_view() =~= sofar.push(c@));
        }
        i = i + 1;
    }
    assert(some.deep_view().len() == some@.len());
    enable_controllers(target, some.as_slice())
}

/// The mode of a directory that has been handed over: `rwxrwxr-x`.
pub const DELEGATED_MODE: u32 = 0o775;

/// The files of a cgroup that are handed over with it, where they are there.
pub fn delegated_files() -> (r: Vec<&'static str>)
    ensures
        r.deep_view() == seq![
            "cgroup.procs"@,
            "cgroup.subtree_control"@,
            "cgroup.threads"@,
            "dmem.low"@,
            "dmem.max"@,
            "memory.max"@,
            "memory.high"@,
            "memory.low"@,
            "memory.min"@,
            "cpu.weight"@,
            "cpu.weight.nice"@,
            "cpu.max"@,
            "cgroup.kill"@,
            "cgroup.freeze"@,
            "cgroup.type"@,
            "cgroup.events"@,
        ],
{
    let r: Vec<&'static str> = vec![
        "cgroup.procs",
        "cgroup.subtree_control",
        "cgroup.threads",
        "dmem.low",
        "dmem.max",
        "memory.max",
        "memory.high",
        "memory.low",
        "memory.min",
        "cpu.weight",
        "cpu.weight.nice",
        "cpu.max",
        "cgroup.kill",
        "cgroup.freeze",
        "cgroup.type",
        "cgroup.events",
    ];
    assert(r.deep_view() =~= seq![
        "cgroup.procs"@,
        "cgroup.subtree_control"@,
        "cgroup.threads"@,
        "dmem.low"@,
        "dmem.max"@,
        "memory.max"@,
        "memory.high"@,
        "memory.low"@,
        "memory.min"@,
        "cpu.weight"@,
        "cpu.weight.nice"@,
        "cpu.max"@,
        "cgroup.kill"@,
        "cgroup.freeze"@,
        "cgroup.type"@,
        "cgroup.events"@,
    ]);
    r
}

/// Whether a cgroup may be removed on behalf of `uid`: root's may all be, and
/// anyone else's own.
pub open spec fn may_remove(uid: u32, owner: Option<u32>) -> bool {
    uid == 0 || owner == Some(uid)
}

/// Those of the first `n` cgroups that may be removed on behalf of `uid`.
pub open spec fn removable_to(uid: u32, owners: Seq<Option<u32>>, n: int) -> Seq<usize>
    decreases n,
{
    if n <= 0 {
        Seq::empty()
    } else if may_remove(uid, owners[n - 1]) {
        removable_to(uid, owners, n - 1).push((n - 1) as usize)
    } else {
        removable_to(uid, owners, n - 1)
    }
}

/// Which cgroups are removed on behalf of a user.
#[derive(Debug)]
pub struct Sweep {
    /// The cgroups to remove, by their places in the list.
    pub remove: Vec<usize>,
    /// How many belong to others and stay.
    pub skipped: usize,
}

/// Picks the cgroups to remove on behalf of `uid`. `owners` tells whose the
/// cgroups are that were found, in their order; `None` stands for one whose
/// owner cannot be told.
pub fn privileged_clean_tree(base: &str, uid: u32, owners: &[Option<u32>]) -> (r: Result<
    Sweep,
    RelError,
>)
    ensures
        match r {
            Ok(s) => {
                &&& rel_fault(base@) is None
                &&& s.remove@ == removable_to(uid, owners@, owners@.len() as int)
                &&& s.skipped + s.remove@.len() == owners@.len()
            },
            Err(e) => rel_fault(base@) == Some(e),
        },
{
    match validate_base(base) {
        Err(e) => {
            return Err(e);
        },
        Ok(_) => {},
    }
    let mut remove: Vec<usize> = Vec::new();
    let mut skipped: usize = 0;
    let mut i: usize = 0;
    while i < owners.len()
        invariant
            i <= owners.len(),
            remove@ == removable_to(uid, owners@, i as int),
            skipped + remove@.len() == i,
        decreases owners.len() - i,
    {
        let mine = match owners[i] {
            Some(o) => uid == 0 || o == uid,
            None => uid == 0,
        };
        if mine {
            remove.push(i);
        } else {
            skipped = skipped + 1;
        }
        i = i + 1;
    }
    Ok(Sweep { remove, skipped })
}

/// What to say once cgroups were removed on behalf of a user: which ones could
/// not be, else how many were left to their owners.
pub open spec fn sweep_report(failed: Seq<Seq<char>>, skipped: nat) -> Result<
    Option<Seq<char>>,
    Seq<char>,
> {
    if failed.len() > 0 {
        Err("could not remove: "@ + joined_texts(failed, ", "@))
    } else if skipped > 0 {
        Ok(Some("skipped "@ + decimal(skipped) + " cgroup(s) owned by other users"@))
    } else {
        Ok(None)
    }
}

/// What to say once cgroups were removed on behalf of a user.
pub fn report_sweep(failed: &[String], skipped: usize) -> (r: Result<Option<String>, String>)
    ensures
        match r {
            Ok(Some(t)) => sweep_report(failed.deep_view(), skipped as nat) == Ok::<
                _,
                Seq<char>,
            >(Some(t@)),
            Ok(None) => sweep_report(failed.deep_view(), skipped as nat) == Ok::<
                Option<Seq<char>>,
                Seq<char>,
            >(None),
            Err(t) => sweep_report(failed.deep_view(), skipped as nat) == Err::<
                Option<Seq<char>>,
                _,
            >(t@),
        },
{
    assert(failed.deep_view().len() == failed@.len());
    if failed.len() > 0 {
        Err("could not remove: ".to_owned().concat(join_texts(failed, ", ").as_str()))
    } else if skipped > 0 {
        Ok(
            Some(
                "skipped ".to_owned().concat(show(skipped as u64).as_str()).concat(
                    " cgroup(s) owned by other users",
                ),
            ),
        )
    } else {
        Ok(None)
    }
}

/// No cgroup of another user is removed on behalf of anyone but root, and each
/// of a user's own is.
pub proof fn law_others_cgroups_stay(uid: u32, owners: Seq<Option<u32>>, n: int)
    requires
        0 <= n <= owners.len() <= usize::MAX,
    ensures
        forall|j: int|
            0 <= j < n ==> (removable_to(uid, owners, n).contains(j as usize) <==> may_remove(
                uid,
                #[trigger] owners[j],
            )),
        forall|i: int|
            0 <= i < removable_to(uid, owners, n).len() ==> (#[trigger] removable_to(
                uid,
                owners,
                n,
            )[i]) < n,
    decreases n,
{
    if n > 0 {
        law_others_cgroups_stay(uid, owners, n - 1);
        let before = removable_to(uid, owners, n - 1);
        let now = removable_to(uid, owners, n);
        assert forall|j: int| 0 <= j < n implies (now.contains(j as usize) <==> may_remove(
            uid,
            #[trigger] owners[j],
        )) by {
            if may_remove(uid, owners[n - 1]) {
                assert(now[now.len() - 1] == (n - 1) as usize);
                if j < n - 1 {
                    if before.contains(j as usize) {
                        let i = choose|i: int| 0 <= i < before.len() && before[i] == j as usize;
                        assert(now[i] == j as usize);
                    }
                    if now.contains(j as usize) {
                        let i = choose|i: int| 0 <= i < now.len() && now[i] == j as usize;
                        assert(i < before.len());
                        assert(before[i] == j as usize);
                    }
                }
            }
        }
    }
}

/// What to write, and below which directory, to move a process into a cgroup.
pub fn privileged_move(mount: &str, rel: &str, pid: i32) -> (r: Result<
    (String, Setting),
    PathError,
>)
    ensures
        match r {
            Ok((dir, s)) => {
                &&& path_fault(mount@, rel@) is None
                &&& dir@ == full_path(mount@, rel@)
                &&& s@ == (SettingText {
                    file: "cgroup.procs"@,
                    body: signed_decimal(pid as int) + "\n"@,
                })
            },
            Err(e) => path_fault(mount@, rel@) == Some(e),
        },
{
    match checked_path(mount, rel) {
        Err(e) => Err(e),
        Ok(dir) => Ok(
            (dir, Setting { file: "cgroup.procs".to_owned(), body: write_cgroup_procs(pid) }),
        ),
    }
}

/// The arguments with which the runner calls itself with privileges to move a
/// process.
pub fn escalate_move_to_cgroup(rel: &str, pid: i32) -> (r: Result<Vec<String>, RelError>)
    ensures
        match r {
            Ok(v) => rel_fault(rel@) is None && v.deep_view() == seq![
                "privileged"@,
                "--move"@,
                rel@,
                "--move-pid"@,
                signed_decimal(pid as int),
            ],
            Err(e) => rel_fault(rel@) == Some(e),
        },
{
    match validate_rel(rel) {
        Err(e) => Err(e),
        Ok(_) => {
            let shown = show_signed(pid);
            let args: Vec<&str> = vec!["privileged", "--move", rel, "--move-pid", shown.as_str()];
            assert(args.deep_view() =~= seq![
                "privileged"@,
                "--move"@,
                rel@,
                "--move-pid"@,
                signed_decimal(pid as int),
            ]);
            Ok(owned(args.as_slice()))
        },
    }
}

/// The arguments of a privileged call that makes something for an owner.
pub open spec fn owner_args(flag: Seq<char>, what: Seq<char>, uid: u32, gid: u32) -> Seq<
    Seq<char>,
> {
    seq![
        "privileged"@,
        flag,
        what,
        "--owner-uid"@,
        decimal(uid as nat),
        "--owner-gid"@,
        decimal(gid as nat),
    ]
}

/// The arguments of a privileged call that makes something for an owner.
fn show_owner_args(flag: &str, what: &str, uid: u32, gid: u32) -> (r: Vec<String>)
    ensures
        r.deep_view() == owner_args(flag@, what@, uid, gid),
{
    let u = show(uid as u64);
    let g = show(gid as u64);
    let args: Vec<&str> = vec![
        "privileged",
        flag,
        what,
        "--owner-uid",
        u.as_str(),
        "--owner-gid",
        g.as_str(),
    ];
    assert(args.deep_view() =~= owner_args(flag@, what@, uid, gid));
    owned(args.as_slice())
}

/// The arguments with which the runner calls itself with privileges to set up a
/// base cgroup.
pub fn escalate_setup(base: &str, uid: u32, gid: u32) -> (r: Vec<String>)
    ensures
        r.deep_view() == owner_args("--setup-base"@, base@, uid, gid),
{
    show_owner_args("--setup-base", base, uid, gid)
}

/// The arguments with which the runner calls itself with privileges to create a
/// cgroup.
pub fn escalate_create(rel: &str, uid: u32, gid: u32) -> (r: Vec<String>)
    ensures
        r.deep_view() == owner_args("--create"@, rel@, uid, gid),
{
    show_owner_args("--create", rel, uid, gid)
}

/// The arguments with which the runner calls itself with privileges to remove
/// a user's cgroups.
pub fn escalate_clean(base: &str, uid: u32) -> (r: Vec<String>)
    ensures
        r.deep_view() == seq![
            "privileged"@,
            "--clean"@,
            base@,
            "--owner-uid"@,
            decimal(uid as nat),
        ],
{
    let u = show(uid as u64);
    let args: Vec<&str> = vec!["privileged", "--clean", base, "--owner-uid", u.as_str()];
    assert(args.deep_view() =~= seq![
        "privileged"@,
        "--clean"@,
        base@,
        "--owner-uid"@,
        decimal(uid as nat),
    ]);
    owned(args.as_slice())
}

/// What to say where a privileged call failed.
pub fn escalation_failed(status: &str, exe: &str) -> (r: String)
    ensures
        r@ == "pkexec failed ("@ + status@ + "): run `pkexec "@ + exe@
            + " setup` once to delegate cgrun"@,
{
    "pkexec failed (".to_owned().concat(status).concat("): run `pkexec ").concat(exe).concat(
        " setup` once to delegate cgrun",
    )
}

/// The number of a user or a group that a text gives.
pub open spec fn id_in(text: Option<Seq<char>>) -> Option<nat> {
    match text {
        Some(s) => within(unsigned(s), u32::MAX as nat),
        None => None,
    }
}

/// The number that the first of two texts gives, else the second, else `own`.
pub open spec fn id_of(first: Option<Seq<char>>, second: Option<Seq<char>>, own: u32) -> nat {
    match id_in(first) {
        Some(n) => n,
        None => match id_in(second) {
            Some(n) => n,
            None => own as nat,
        },
    }
}

/// Reads the number of a user or a group.
fn parse_id(text: Option<&str>) -> (r: Option<u32>)
    ensures
        match r {
            Some(n) => id_in(text_in(text)) == Some(n as nat),
            None => id_in(text_in(text)) is None,
        },
{
    match text {
        Some(t) => match parse_unsigned(t, u32::MAX as u64) {
            Some(n) => Some(n as u32),
            None => None,
        },
        None => None,
    }
}

/// Picks the number that the first of two texts gives, else the second, else
/// `own`.
fn pick_id(first: Option<&str>, second: Option<&str>, own: u32) -> (r: u32)
    ensures
        r == id_of(text_in(first), text_in(second), own),
{
    match parse_id(first) {
        Some(n) => n,
        None => match parse_id(second) {
            Some(n) => n,
            None => own,
        },
    }
}

/// On whose behalf the runner works: the caller's own user and group, and for
/// root those that `pkexec` or `sudo` say they were called by.
pub fn invoking_ids(
    is_root: bool,
    own: (u32, u32),
    pkexec_uid: Option<&str>,
    sudo_uid: Option<&str>,
    pkexec_gid: Option<&str>,
    sudo_gid: Option<&str>,
) -> (r: (u32, u32))
    ensures
        !is_root ==> r == own,
        is_root ==> r.0 == id_of(text_in(pkexec_uid), text_in(sudo_uid), own.0),
        is_root ==> r.1 == id_of(text_in(pkexec_gid), text_in(sudo_gid), own.1),
{
    if !is_root {
        return own;
    }
    (pick_id(pkexec_uid, sudo_uid, own.0), pick_id(pkexec_gid, sudo_gid, own.1))
}

proof fn lemma_removable(uid: u32, owners: Seq<Option<u32>>, n: int)
    requires
        0 <= n <= owners.len() <= usize::MAX,
    ensures
        ({
            let r = removable_to(uid, owners, n);
            &&& forall|i: int| 0 <= i < r.len() ==> (#[trigger] r[i]) < n
            &&& forall|i: int, j: int| 0 <= i < j < r.len() ==> #[trigger] r[i] < #[trigger] r[j]
            &&& forall|j: int|
                0 <= j < n ==> (r.contains(j as usize) <==> uid == 0 || #[trigger] owners[j]
                    == Some(uid))
        }),
    decreases n,
{
    if n > 0 {
        lemma_removable(uid, owners, n - 1);
        let before = removable_to(uid, owners, n - 1);
        let now = removable_to(uid, owners, n);
        assert forall|j: int| 0 <= j < n implies (now.contains(j as usize) <==> uid == 0
            || #[trigger] owners[j] == Some(uid)) by {
            if j < n - 1 {
                if before.contains(j as usize) {
                    let i = choose|i: int| 0 <= i < before.len() && before[i] == j as usize;
                    assert(now[i] == j as usize);
                }
                if now.contains(j as usize) {
                    let i = choose|i: int| 0 <= i < now.len() && now[i] == j as usize;
                    assert(i < before.len());
                    assert(before[i] == j as usize);
                }
            } else if uid == 0 || owners[j] == Some(uid) {
                assert(now[now.len() - 1] == j as usize);
            } else if now.contains(j as usize) {
                let i = choose|i: int| 0 <= i < now.len() && now[i] == j as usize;
                assert(before[i] < n - 1);
            }
        }
    }
}

/// On behalf of a user, the cgroups that belong to that user are removed and no
/// other: not another user's, not root's, and none whose owner cannot be told.
/// On behalf of root all are. Each is named once, in the order found.
pub proof fn law_only_own_cgroups_are_removed(uid: u32, owners: Seq<Option<u32>>)
    requires
        owners.len() <= usize::MAX,
    ensures
        ({
            let r = removable_to(uid, owners, owners.len() as int);
            &&& uid != 0 ==> forall|j: int|
                0 <= j < owners.len() ==> (r.contains(j as usize) <==> #[trigger] owners[j] == Some(
                    uid,
                ))
            &&& uid == 0 ==> r == Seq::new(owners.len(), |j: int| j as usize)
            &&& forall|i: int| 0 <= i < r.len() ==> (#[trigger] r[i]) < owners.len()
            &&& forall|i: int, j: int| 0 <= i < j < r.len() ==> #[trigger] r[i] < #[trigger] r[j]
        }),
{
    lemma_removable(uid, owners, owners.len() as int);
    if uid == 0 {
        lemma_root_removes(owners, owners.len() as int);
    }
}

proof fn lemma_root_removes(owners: Seq<Option<u32>>, n: int)
    requires
        0 <= n <= owners.len() <= usize::MAX,
    ensures
        removable_to(0, owners, n) == Seq::new(n as nat, |j: int| j as usize),
    decreases n,
{
    if n > 0 {
        lemma_root_removes(owners, n - 1);
    }
    assert(removable_to(0, owners, n) =~= Seq::new(n as nat, |j: int| j as usize));
}

/// What one user's cleaning removes, no other user's does.
pub proof fn law_cleanings_do_not_meet(a: u32, b: u32, owners: Seq<Option<u32>>, j: usize)
    requires
        owners.len() <= usize::MAX,
        a != 0,
        b != 0,
        a != b,
    ensures
        !(removable_to(a, owners, owners.len() as int).contains(j) && removable_to(
            b,
            owners,
            owners.len() as int,
        ).contains(j)),
{
    lemma_removable(a, owners, owners.len() as int);
    lemma_removable(b, owners, owners.len() as int);
    let r = removable_to(a, owners, owners.len() as int);
    if r.contains(j) {
        let i = choose|i: int| 0 <= i < r.len() && r[i] == j;
        assert(r[i] < owners.len());
        assert(owners[j as int] == Some(a));
    }
}

proof fn lemma_managed(cs: Seq<Seq<char>>, n: int)
    requires
        0 <= n <= cs.len(),
    ensures
        managed_to(cs, n) == cs.take(n).filter(
            |c: Seq<char>| c == "dmem"@ || c == "memory"@ || c == "cpu"@,
        ),
    decreases n,
{
    reveal(Seq::filter);
    if n > 0 {
        lemma_managed(cs, n - 1);
        assert(cs.take(n).drop_last() =~= cs.take(n - 1));
    }
}

/// The runner manages device memory, memory and the processor, and no other
/// controller; each of these that is listed is managed, in its order.
pub proof fn law_managed_controllers(data: Seq<char>)
    ensures
        managed(data) == words(data).filter(
            |c: Seq<char>| c == "dmem"@ || c == "memory"@ || c == "cpu"@,
        ),
{
    let all = words(data);
    assert(all.take(all.len() as int) =~= all);
    lemma_managed(all, all.len() as int);
}

/// Each managed controller that is listed is on already or requested, and no
/// other is requested.
pub proof fn law_all_managed_are_enabled(source: Seq<char>, target: Seq<char>)
    ensures
        ({
            let request = words(
                switch_on(managed(source), words(target), managed(source).len() as int),
            );
            &&& forall|c: Seq<char>|
                (c == "dmem"@ || c == "memory"@ || c == "cpu"@) && #[trigger] words(
                    source,
                ).contains(c) ==> words(target).contains(c) || request.contains(seq!['+'] + c)
            &&& forall|i: int|
                0 <= i < request.len() ==> exists|c: Seq<char>|
                    {
                        &&& #[trigger] request[i] == seq!['+'] + c
                        &&& c == "dmem"@ || c == "memory"@ || c == "cpu"@
                        &&& #[trigger] words(source).contains(c)
                        &&& !words(target).contains(c)
                    }
        }),
{
    broadcast use vstd::seq_lib::group_filter_ensures;

    let p = |c: Seq<char>| c == "dmem"@ || c == "memory"@ || c == "cpu"@;
    let all = words(source);
    let on = words(target);
    let some = managed(source);
    let request = words(switch_on(some, on, some.len() as int));
    law_managed_controllers(source);
    law_words_are_unbroken(source);
    assert forall|i: int| 0 <= i < some.len() implies unbroken(#[trigger] some[i]) && all.contains(
        some[i],
    ) by {
        assert(some.contains(some[i]));
        all.lemma_filter_contains_rev(p, some[i]);
        let k = choose|k: int| 0 <= k < all.len() && all[k] == some[i];
        assert(unbroken(all[k]));
    }
    law_missing_controllers_are_requested(some, on);
    assert forall|c: Seq<char>|
        (c == "dmem"@ || c == "memory"@ || c == "cpu"@) && #[trigger] all.contains(
            c,
        ) implies on.contains(c) || request.contains(seq!['+'] + c) by {
        let k = choose|k: int| 0 <= k < all.len() && all[k] == c;
        assert(p(all[k]));
        assert(some.contains(all[k]));
        let i = choose|i: int| 0 <= i < some.len() && some[i] == c;
        assert(on.contains(some[i]) || request.contains(seq!['+'] + some[i]));
    }
    let q = |c: Seq<char>| !on.contains(c);
    let need = some.filter(q);
    assert forall|i: int| 0 <= i < request.len() implies exists|c: Seq<char>|
        {
            &&& #[trigger] request[i] == seq!['+'] + c
            &&& c == "dmem"@ || c == "memory"@ || c == "cpu"@
            &&& #[trigger] all.contains(c)
            &&& !on.contains(c)
        } by {
        let c = need[i];
        assert(request[i] == seq!['+'] + c);
        assert(q(need[i]));
        assert(need.contains(c));
        some.lemma_filter_contains_rev(q, c);
        let k = choose|k: int| 0 <= k < some.len() && some[k] == c;
        assert(p(some[k]));
        assert(all.contains(c));
    }
}

/// A path is refused where it is blank, where it begins with a slash, and where
/// any of its components is not a name, in this order, and else never.
pub proof fn law_valid_paths(rel: Seq<char>)
    ensures
        rel_fault(rel) == Some(RelError::Blank) <==> trimmed(rel).len() == 0,
        rel_fault(rel) == Some(RelError::Absolute) <==> trimmed(rel).len() > 0 && rel[0] == '/',
        rel_fault(rel) is None <==> trimmed(rel).len() > 0 && forall|i: int|
            0 <= i < components(rel).len() ==> #[trigger] components(rel)[i] is Name,
{
    if rel.len() == 0 {
        assert(trimmed(rel) =~= rel);
    }
    if trimmed(rel).len() > 0 && (forall|i: int|
        0 <= i < components(rel).len() ==> #[trigger] components(rel)[i] is Name) {
        assert forall|i: int| 0 <= i < parts(rel).len() implies (#[trigger] parts(rel)[i]).kind
            == Kind::Name by {
            assert(components(rel)[i] is Name);
        }
        if rel[0] == '/' {
            assert(parts(rel)[0].kind == Kind::Root);
            assert(components(rel)[0] is Name);
        }
    }
    if rel_fault(rel) is None {
        assert forall|i: int| 0 <= i < components(rel).len() implies #[trigger] components(
            rel,
        )[i] is Name by {
            assert(parts(rel)[i].kind == Kind::Name);
        }
    }
}

/// A path of names with a slash between each and the next is valid, and one
/// with a `..` anywhere, or a `.` at its front, is not.
pub proof fn law_paths_of_names(names: Seq<Seq<char>>, k: int)
    requires
        names.len() > 0,
        forall|i: int|
            0 <= i < names.len() ==> (#[trigger] names[i]).len() > 0 && !names[i].contains('/'),
        0 <= k < names.len(),
    ensures
        (forall|i: int| 0 <= i < names.len() ==> is_name(#[trigger] names[i])) && trimmed(
            joined_texts(names, seq!['/']),
        ).len() > 0 ==> rel_fault(joined_texts(names, seq!['/'])) is None,
        names[k] == seq!['.', '.'] ==> rel_fault(joined_texts(names, seq!['/'])) is Some,
        names[0] == seq!['.'] ==> rel_fault(joined_texts(names, seq!['/'])) is Some,
{
    let p = joined_texts(names, seq!['/']);
    law_path_of_segments(names);
    law_valid_paths(p);
    if names[k] == seq!['.', '.'] {
        lemma_segment_stands(names, k);
        let j = choose|j: int|
            0 <= j < components(p).len() && #[trigger] components(p)[j] == Component::Up;
        assert(!(components(p)[j] is Name));
    }
    if names[0] == seq!['.'] {
        assert(components(p)[0] == Component::Here);
    }
}

/// Root works on behalf of the user or group that the first text names, where
/// it is the decimal form of a number of 32 bits; else that the second names;
/// else on its own.
pub proof fn law_invoker_is_named(
    n: u32,
    first: Option<Seq<char>>,
    second: Option<Seq<char>>,
    own: u32,
)
    ensures
        id_of(Some(decimal(n as nat)), second, own) == n,
        first is None || unsigned(first->0) is None ==> id_of(
            first,
            Some(decimal(n as nat)),
            own,
        ) == n,
        (first is None || unsigned(first->0) is None) && (second is None || unsigned(
            second->0,
        ) is None) ==> id_of(first, second, own) == own,
        (first matches Some(t) && (unsigned(t) matches Some(m) && m > 0xffff_ffff)) ==> id_of(
            first,
            second,
            own,
        ) == id_of(None, second, own),
{
    law_decimals_are_read(n as nat, 0, u32::MAX as nat);
    assert(Seq::new(0, |i: int| '0') + decimal(n as nat) =~= decimal(n as nat));
}

/// The helper is told the user and the group that it is to work for: read back
/// from its arguments they are the same, each behind its own flag.
pub proof fn law_owners_are_passed_on(flag: Seq<char>, what: Seq<char>, uid: u32, gid: u32)
    ensures
        ({
            let a = owner_args(flag, what, uid, gid);
            &&& a.len() == 7
            &&& a[0] == "privileged"@
            &&& a[1] == flag
            &&& a[2] == what
            &&& a[3] == "--owner-uid"@
            &&& within(unsigned(a[4]), u32::MAX as nat) == Some(uid as nat)
            &&& a[5] == "--owner-gid"@
            &&& within(unsigned(a[6]), u32::MAX as nat) == Some(gid as nat)
        }),
{
    law_decimals_are_read(uid as nat, 0, u32::MAX as nat);
    law_decimals_are_read(gid as nat, 0, u32::MAX as nat);
    assert(Seq::new(0, |i: int| '0') + decimal(uid as nat) =~= decimal(uid as nat));
    assert(Seq::new(0, |i: int| '0') + decimal(gid as nat) =~= decimal(gid as nat));
}

/// One cgroup that could not be removed makes the cleaning a failure, which
/// names them all; without one it is none, and says how many were skipped.
pub proof fn law_sweep_report(failed: Seq<Seq<char>>, skipped: nat)
    ensures
        failed.len() > 0 ==> sweep_report(failed, skipped) == Err::<Option<Seq<char>>, Seq<char>>(
            "could not remove: "@ + joined_texts(failed, ", "@),
        ),
        failed.len() == 0 && skipped > 0 ==> sweep_report(failed, skipped) == Ok::<
            Option<Seq<char>>,
            Seq<char>,
        >(Some("skipped "@ + decimal(skipped) + " cgroup(s) owned by other users"@)),
        failed.len() == 0 && skipped == 0 ==> sweep_report(failed, skipped) == Ok::<
            Option<Seq<char>>,
            Seq<char>,
        >(None),
{
}

/// Root works on behalf of whatever number of 32 bits the first text denotes.
pub proof fn law_first_named_invoker(t: Seq<char>, m: nat, second: Option<Seq<char>>, own: u32)
    requires
        unsigned(t) == Some(m),
        m <= 0xffff_ffff,
    ensures
        id_of(Some(t), second, own) == m,
        id_of(None, Some(t), own) == m,
{
}

/// A path is refused for what is wrong with it as a path, and for nothing else.
pub proof fn law_path_faults(mount: Seq<char>, rel: Seq<char>)
    ensures
        path_fault(mount, rel) == match rel_fault(rel) {
            Some(e) => Some(PathError::Rel(e)),
            None => None,
        },
{
    law_full_paths_lie_under(mount, rel);
}

/// A path that is refused is quoted, but for one that is blank.
pub proof fn law_path_complaints(e: RelError, rel: Seq<char>)
    ensures
        rel_complaint(RelError::Blank, rel) == "invalid cgroup path ''"@,
        rel_complaint(RelError::Absolute, rel) == "invalid cgroup path '"@ + rel
            + "': must be relative"@,
        rel_complaint(RelError::Component, rel) == "invalid cgroup path '"@ + rel + "'"@,
        path_complaint(PathError::Rel(e), rel) == rel_complaint(e, rel),
        path_complaint(PathError::Escapes, rel) == "invalid cgroup path '"@ + rel
            + "': escapes the cgroup mount"@,
{
}

} // verus!
