//! What the commands decide: which cgroup is meant, whether it may be touched,
//! and what is asked of a privileged helper.

use vstd::prelude::*;

use crate::cgroup::{full_cgroup_path, full_path, is_under_mount};
use crate::number::{decimal, show};
use crate::path::{components, is_same_path, lies_under, parts, pieces, same_path, Component, Kind};
use crate::privilege::{law_valid_paths, law_valid_paths_stay_below, rel_fault, validate_rel};
use crate::text::{borrowed, chars, owned, trim, trimmed};

verus! {

/// Why a text stands for no cgroup.
#[derive(Clone, Copy, Debug, PartialEq, Eq, Structural)]
pub enum ResolveError {
    /// Nothing but white space.
    Blank,
    /// It is no path, or it goes upwards.
    Invalid,
    /// It lies outside the mount.
    Outside,
    /// What lies there is no cgroup.
    NotCgroup,
}

/// Whether a path goes upwards somewhere.
pub open spec fn goes_up(p: Seq<char>) -> bool {
    exists|i: int| 0 <= i < parts(p).len() && (#[trigger] parts(p)[i]).kind == Kind::Up
}

/// Where a text says that a cgroup lies: at an absolute path, or below the
/// mount.
pub open spec fn place_of(mount: Seq<char>, input: Seq<char>) -> Seq<char> {
    if input.len() > 0 && input[0] == '/' {
        input
    } else {
        full_path(mount, input)
    }
}

/// What is wrong with a text that is to stand for a cgroup, by the text alone.
pub open spec fn place_fault(mount: Seq<char>, input: Seq<char>) -> Option<ResolveError> {
    if trimmed(input).len() == 0 {
        Some(ResolveError::Blank)
    } else if input[0] != '/' && rel_fault(input) is Some {
        Some(ResolveError::Invalid)
    } else if !lies_under(mount, place_of(mount, input)) {
        Some(ResolveError::Outside)
    } else if goes_up(place_of(mount, input)) {
        Some(ResolveError::Invalid)
    } else {
        None
    }
}

/// Whether a path goes upwards somewhere.
fn has_up(p: &str) -> (r: bool)
    ensures
        r == goes_up(p@),
{
    let xs = pieces(p);
    let mut i: usize = 0;
    while i < xs.len()
        invariant
            i <= xs.len(),
            xs.deep_view() == parts(p@),
            forall|j: int| 0 <= j < i ==> (#[trigger] parts(p@)[j]).kind != Kind::Up,
        decreases xs.len() - i,
    {
        assert(xs.deep_view()[i as int] == xs@[i as int]@);
        if xs[i].kind == Kind::Up {
            assert(parts(p@)[i as int].kind == Kind::Up);
            return true;
        }
        i = i + 1;
    }
    assert(xs.deep_view().len() == xs@.len());
    false
}

/// Finds out where the cgroup lies that a text stands for.
pub fn locate(mount: &str, input: &str) -> (r: Result<String, ResolveError>)
    ensures
        match r {
            Ok(p) => place_fault(mount@, input@) is None && p@ == place_of(mount@, input@),
            Err(e) => place_fault(mount@, input@) == Some(e),
        },
{
    if trim(input).is_empty() {
        return Err(ResolveError::Blank);
    }
    let cs = chars(input);
    proof {
        if input@.len() == 0 {
            assert(trimmed(input@) =~= input@);
        }
    }
    let p = if cs[0] == '/' {
        input.to_owned()
    } else {
        match validate_rel(input) {
            Ok(_) => full_cgroup_path(mount, input),
            Err(_) => {
                return Err(ResolveError::Invalid);
            },
        }
    };
    if !is_under_mount(mount, p.as_str()) {
        return Err(ResolveError::Outside);
    }
    if has_up(p.as_str()) {
        return Err(ResolveError::Invalid);
    }
    Ok(p)
}

/// What is wrong with a text that is to stand for a cgroup. `is_cgroup` says
/// whether there is a cgroup where the text says that one lies.
pub open spec fn resolve_fault(mount: Seq<char>, input: Seq<char>, is_cgroup: bool) -> Option<
    ResolveError,
> {
    match place_fault(mount, input) {
        Some(e) => Some(e),
        None => if is_cgroup {
            None
        } else {
            Some(ResolveError::NotCgroup)
        },
    }
}

/// Finds the cgroup that a text stands for.
pub fn resolve_cgroup(mount: &str, input: &str, is_cgroup: bool) -> (r: Result<
    String,
    ResolveError,
>)
    ensures
        match r {
            Ok(p) => resolve_fault(mount@, input@, is_cgroup) is None && p@ == place_of(
                mount@,
                input@,
            ),
            Err(e) => resolve_fault(mount@, input@, is_cgroup) == Some(e),
        },
{
    match locate(mount, input) {
        Err(e) => Err(e),
        Ok(p) => if is_cgroup {
            Ok(p)
        } else {
            Err(ResolveError::NotCgroup)
        },
    }
}

/// Says why a text stands for no cgroup.
pub open spec fn resolve_complaint(
    e: ResolveError,
    mount: Seq<char>,
    input: Seq<char>,
) -> Seq<char> {
    match e {
        ResolveError::Blank => "invalid cgroup path ''"@,
        ResolveError::Invalid => "invalid cgroup path '"@ + input + "'"@,
        ResolveError::Outside => "invalid cgroup path '"@ + input + "': outside "@ + mount,
        ResolveError::NotCgroup => "not a cgroup: "@ + place_of(mount, input),
    }
}

/// Says why a text stands for no cgroup.
pub fn resolve_message(e: ResolveError, mount: &str, input: &str) -> (r: String)
    ensures
        r@ == resolve_complaint(e, mount@, input@),
{
    match e {
        ResolveError::Blank => "invalid cgroup path ''".to_owned(),
        ResolveError::Invalid => "invalid cgroup path '".to_owned().concat(input).concat("'"),
        ResolveError::Outside => "invalid cgroup path '".to_owned().concat(input).concat(
            "': outside ",
        ).concat(mount),
        ResolveError::NotCgroup => {
            let cs = chars(input);
            let p = if cs.len() > 0 && cs[0] == '/' {
                input.to_owned()
            } else {
                full_cgroup_path(mount, input)
            };
            "not a cgroup: ".to_owned().concat(p.as_str())
        },
    }
}

/// What a text resolves to lies at or below the mount and never goes upwards.
pub proof fn law_resolved_paths_stay_below(mount: Seq<char>, input: Seq<char>, is_cgroup: bool)
    requires
        resolve_fault(mount, input, is_cgroup) is None,
    ensures
        lies_under(mount, place_of(mount, input)),
        !goes_up(place_of(mount, input)),
        is_cgroup,
{
}

/// A valid path below the mount is never found to lie outside it.
pub proof fn law_relative_paths_are_inside(mount: Seq<char>, input: Seq<char>)
    requires
        rel_fault(input) is None,
    ensures
        place_fault(mount, input) != Some(ResolveError::Outside),
        place_of(mount, input) == full_path(mount, input),
{
    if input.len() == 0 {
        assert(trimmed(input) =~= input);
    }
    law_valid_paths_stay_below(mount, input);
}

/// Why a cgroup is not touched.
#[derive(Clone, Copy, Debug, PartialEq, Eq, Structural)]
pub enum Refusal {
    /// It is the root of all cgroups.
    Root,
    /// It is not there.
    Missing,
}

/// Whether a cgroup is not touched: the root of all cgroups never is.
pub open spec fn refusal_of(mount: Seq<char>, cgroup: Seq<char>, exists: bool) -> Option<Refusal> {
    if same_path(cgroup, mount) {
        Some(Refusal::Root)
    } else if !exists {
        Some(Refusal::Missing)
    } else {
        None
    }
}

/// Checks that a cgroup may be signalled, frozen or thawed.
pub fn check_target(mount: &str, cgroup: &str, exists: bool) -> (r: Result<(), Refusal>)
    ensures
        match r {
            Ok(_) => refusal_of(mount@, cgroup@, exists) is None,
            Err(e) => refusal_of(mount@, cgroup@, exists) == Some(e),
        },
{
    if is_same_path(cgroup, mount) {
        Err(Refusal::Root)
    } else if !exists {
        Err(Refusal::Missing)
    } else {
        Ok(())
    }
}

/// Says why a cgroup is not touched. `verb` is what was to be done to it:
/// `signal` or `freeze`.
pub fn refusal_message(e: Refusal, verb: &str, mount: &str, cgroup: &str) -> (r: String)
    ensures
        r@ == match e {
            Refusal::Root => "refusing to "@ + verb@ + " the cgroup root "@ + mount@,
            Refusal::Missing => "cgroup not found: "@ + cgroup@,
        },
{
    match e {
        Refusal::Root => "refusing to ".to_owned().concat(verb).concat(
            " the cgroup root ",
        ).concat(mount),
        Refusal::Missing => "cgroup not found: ".to_owned().concat(cgroup),
    }
}

/// Says that the name of a base is not valid.
pub fn invalid_base(base: &str) -> (r: String)
    ensures
        r@ == "invalid base '"@ + base@ + "'"@,
{
    "invalid base '".to_owned().concat(base).concat("'")
}

/// What setting up a base comes down to.
#[derive(Clone, Copy, Debug, PartialEq, Eq, Structural)]
pub enum Setup {
    /// Only say that the base is not there.
    Needed,
    /// Only say that the base is there.
    Fine,
    /// Create and hand over the base.
    Privileged,
    /// Call for privileges to do so.
    Escalate,
}

/// What setting up a base comes down to.
pub fn cmd_setup(check: bool, exists: bool, is_root: bool) -> (r: Setup)
    ensures
        r == if check {
            if exists {
                Setup::Fine
            } else {
                Setup::Needed
            }
        } else if is_root {
            Setup::Privileged
        } else {
            Setup::Escalate
        },
{
    if check {
        if exists {
            Setup::Fine
        } else {
            Setup::Needed
        }
    } else if is_root {
        Setup::Privileged
    } else {
        Setup::Escalate
    }
}

/// Says that privileges are called for.
pub fn escalating_message() -> (r: &'static str)
    ensures
        r@ == "escalating via pkexec..."@,
{
    "escalating via pkexec..."
}

/// Says what came of setting up a base, which lies at `at`.
pub open spec fn setup_words(s: Setup, at: Seq<char>) -> Seq<char> {
    match s {
        Setup::Needed => "setup needed: "@ + at + " missing"@,
        Setup::Fine => "setup ok: "@ + at,
        Setup::Privileged => "setup done: "@ + at,
        Setup::Escalate => "setup done (escalated)"@,
    }
}

/// Says what came of setting up a base.
pub fn setup_message(s: Setup, at: &str) -> (r: String)
    ensures
        r@ == setup_words(s, at@),
{
    match s {
        Setup::Needed => "setup needed: ".to_owned().concat(at).concat(" missing"),
        Setup::Fine => "setup ok: ".to_owned().concat(at),
        Setup::Privileged => "setup done: ".to_owned().concat(at),
        Setup::Escalate => "setup done (escalated)".to_owned(),
    }
}

/// The exit code of a check that finds something to do, and of a list of what
/// would be removed.
pub const NOT_DONE: i32 = 2;

/// What is asked of the privileged helper.
#[derive(Debug)]
pub enum Request {
    Setup { base: String, uid: u32, gid: u32 },
    Create { rel: String, uid: u32, gid: u32 },
    Clean { base: String, uid: u32 },
    Move { rel: String, pid: i32 },
}

/// What a `Request` says.
pub ghost enum RequestText {
    Setup { base: Seq<char>, uid: u32, gid: u32 },
    Create { rel: Seq<char>, uid: u32, gid: u32 },
    Clean { base: Seq<char>, uid: u32 },
    Move { rel: Seq<char>, pid: i32 },
}

impl View for Request {
    type V = RequestText;

    open spec fn view(&self) -> RequestText {
        match self {
            Request::Setup { base, uid, gid } => RequestText::Setup {
                base: base@,
                uid: *uid,
                gid: *gid,
            },
            Request::Create { rel, uid, gid } => RequestText::Create {
                rel: rel@,
                uid: *uid,
                gid: *gid,
            },
            Request::Clean { base, uid } => RequestText::Clean { base: base@, uid: *uid },
            Request::Move { rel, pid } => RequestText::Move { rel: rel@, pid: *pid },
        }
    }
}

/// Why the privileged helper does nothing.
#[derive(Clone, Copy, Debug, PartialEq, Eq, Structural)]
pub enum RequestError {
    /// It does not run as root.
    NotRoot,
    /// A base without its owner's user.
    SetupUid,
    /// A base without its owner's group.
    SetupGid,
    /// A cgroup without its owner's user.
    CreateUid,
    /// A cgroup without its owner's group.
    CreateGid,
    /// A removal without a user.
    CleanUid,
    /// A move without a process.
    MovePid,
    /// A process without a place to move it to.
    MoveRel,
    /// Nothing is asked.
    Nothing,
    /// More than one thing is asked.
    Several,
}

/// The options of the privileged helper.
#[derive(Debug)]
pub struct Options {
    pub setup_base: Option<String>,
    pub create: Option<String>,
    pub clean: Option<String>,
    pub owner_uid: Option<u32>,
    pub owner_gid: Option<u32>,
    pub move_rel: Option<String>,
    pub move_pid: Option<i32>,
}

/// What the options ask of the privileged helper: exactly one thing, with all
/// that it needs.
pub open spec fn request_of(is_root: bool, o: Options) -> Result<RequestText, RequestError> {
    if !is_root {
        Err(RequestError::NotRoot)
    } else {
        match (o.setup_base, o.create, o.clean, o.move_rel, o.move_pid) {
            (Some(b), None, None, None, None) => match (o.owner_uid, o.owner_gid) {
                (None, _) => Err(RequestError::SetupUid),
                (Some(_), None) => Err(RequestError::SetupGid),
                (Some(uid), Some(gid)) => Ok(RequestText::Setup { base: b@, uid, gid }),
            },
            (None, Some(p), None, None, None) => match (o.owner_uid, o.owner_gid) {
                (None, _) => Err(RequestError::CreateUid),
                (Some(_), None) => Err(RequestError::CreateGid),
                (Some(uid), Some(gid)) => Ok(RequestText::Create { rel: p@, uid, gid }),
            },
            (None, None, Some(b), None, None) => match o.owner_uid {
                None => Err(RequestError::CleanUid),
                Some(uid) => Ok(RequestText::Clean { base: b@, uid }),
            },
            (None, None, None, Some(rel), Some(pid)) => Ok(RequestText::Move { rel: rel@, pid }),
            (None, None, None, None, None) => Err(RequestError::Nothing),
            (None, None, None, Some(_), None) => Err(RequestError::MovePid),
            (None, None, None, None, Some(_)) => Err(RequestError::MoveRel),
            _ => Err(RequestError::Several),
        }
    }
}

/// What the options ask of the privileged helper.
pub fn cmd_privileged(is_root: bool, o: Options) -> (r: Result<Request, RequestError>)
    ensures
        match r {
            Ok(q) => request_of(is_root, o) == Ok::<_, RequestError>(q@),
            Err(e) => request_of(is_root, o) == Err::<RequestText, _>(e),
        },
{
    if !is_root {
        return Err(RequestError::NotRoot);
    }
    match (o.setup_base, o.create, o.clean, o.move_rel, o.move_pid) {
        (Some(base), None, None, None, None) => match (o.owner_uid, o.owner_gid) {
            (None, _) => Err(RequestError::SetupUid),
            (Some(_), None) => Err(RequestError::SetupGid),
            (Some(uid), Some(gid)) => Ok(Request::Setup { base, uid, gid }),
        },
        (None, Some(rel), None, None, None) => match (o.owner_uid, o.owner_gid) {
            (None, _) => Err(RequestError::CreateUid),
            (Some(_), None) => Err(RequestError::CreateGid),
            (Some(uid), Some(gid)) => Ok(Request::Create { rel, uid, gid }),
        },
        (None, None, Some(base), None, None) => match o.owner_uid {
            None => Err(RequestError::CleanUid),
            Some(uid) => Ok(Request::Clean { base, uid }),
        },
        (None, None, None, Some(rel), Some(pid)) => Ok(Request::Move { rel, pid }),
        (None, None, None, None, None) => Err(RequestError::Nothing),
        (None, None, None, Some(_), None) => Err(RequestError::MovePid),
        (None, None, None, None, Some(_)) => Err(RequestError::MoveRel),
        _ => Err(RequestError::Several),
    }
}

/// Says why the privileged helper does nothing.
pub open spec fn request_complaint(e: RequestError) -> Seq<char> {
    match e {
        RequestError::NotRoot => "privileged requires root"@,
        RequestError::SetupUid => "--setup-base requires --owner-uid"@,
        RequestError::SetupGid => "--setup-base requires --owner-gid"@,
        RequestError::CreateUid => "--create requires --owner-uid"@,
        RequestError::CreateGid => "--create requires --owner-gid"@,
        RequestError::CleanUid => "--clean requires --owner-uid (pass 0 as real root to clean all)"@,
        RequestError::MovePid => "--move requires --move-pid"@,
        RequestError::MoveRel => "--move-pid requires --move"@,
        RequestError::Nothing => "privileged: no operation given"@,
        RequestError::Several => "privileged: pass exactly one of --setup-base, --create, --clean, --move"@,
    }
}

/// Says why the privileged helper does nothing.
pub fn request_message(e: RequestError) -> (r: &'static str)
    ensures
        r@ == request_complaint(e),
{
    match e {
        RequestError::NotRoot => "privileged requires root",
        RequestError::SetupUid => "--setup-base requires --owner-uid",
        RequestError::SetupGid => "--setup-base requires --owner-gid",
        RequestError::CreateUid => "--create requires --owner-uid",
        RequestError::CreateGid => "--create requires --owner-gid",
        RequestError::CleanUid => "--clean requires --owner-uid (pass 0 as real root to clean all)",
        RequestError::MovePid => "--move requires --move-pid",
        RequestError::MoveRel => "--move-pid requires --move",
        RequestError::Nothing => "privileged: no operation given",
        RequestError::Several => "privileged: pass exactly one of --setup-base, --create, --clean, --move",
    }
}

/// The helper does nothing for anyone but root.
pub proof fn law_helper_needs_root(o: Options)
    ensures
        request_of(false, o) is Err,
{
}

/// What cleaning up comes down to.
#[derive(Debug)]
pub enum Clean {
    /// Nothing: there are no cgroups.
    Nothing,
    /// Only say what would be removed, with these lines.
    Preview(Vec<String>),
    /// Remove the cgroups, in their order.
    Remove,
}

/// The lines that say what would be removed.
pub open spec fn preview_lines(targets: Seq<Seq<char>>) -> Seq<Seq<char>> {
    (seq!["will delete "@ + decimal(targets.len()) + " cgroup(s):"@] + Seq::new(
        targets.len(),
        |i: int| "  "@ + targets[i],
    )).push("run with --force to confirm"@)
}

/// The lines that say what would be removed.
fn preview(targets: &[String]) -> (r: Vec<String>)
    ensures
        r.deep_view() == preview_lines(targets.deep_view()),
{
    let ghost texts = targets.deep_view();
    let ghost all = preview_lines(texts);
    assert(texts.len() == targets@.len());
    let mut out: Vec<String> = Vec::new();
    let head = "will delete ".to_owned().concat(show(targets.len() as u64).as_str()).concat(
        " cgroup(s):",
    );
    let ghost first = head@;
    out.push(head);
    assert(out.deep_view() =~= seq![first]);
    assert(out.deep_view() =~= all.take(1));
    let mut i: usize = 0;
    while i < targets.len()
        invariant
            i <= targets.len() == texts.len(),
            texts == targets.deep_view(),
            all == preview_lines(texts),
            out.deep_view() == all.take(i + 1),
        decreases targets.len() - i,
    {
        let ghost sofar = out.deep_view();
        let line = "  ".to_owned().concat(targets[i].as_str());
        let ghost t = line@;
        assert(texts[i as int] == targets@[i as int]@);
        out.push(line);
        assert(out.deep_view() =~= sofar.push(t));
        assert(all[i + 1] == t);
        assert(out.deep_view() =~= all.take(i + 2));
        i = i + 1;
    }
    let ghost sofar = out.deep_view();
    let tail = "run with --force to confirm".to_owned();
    let ghost last = tail@;
    out.push(tail);
    assert(out.deep_view() =~= sofar.push(last));
    assert(out.deep_view() =~= all);
    out
}

/// What cleaning up comes down to, given the cgroups that were found.
pub fn cmd_clean(targets: &[String], force: bool) -> (r: Clean)
    ensures
        match r {
            Clean::Nothing => targets@.len() == 0,
            Clean::Preview(lines) => targets@.len() > 0 && !force && lines.deep_view()
                == preview_lines(targets.deep_view()),
            Clean::Remove => targets@.len() > 0 && force,
        },
{
    if targets.len() == 0 {
        Clean::Nothing
    } else if !force {
        Clean::Preview(preview(targets))
    } else {
        Clean::Remove
    }
}

/// What is said before anything is removed.
pub open spec fn clean_words(c: Clean) -> Seq<Seq<char>> {
    match c {
        Clean::Nothing => seq!["nothing to do: no cgrun cgroups"@],
        Clean::Preview(lines) => lines.deep_view(),
        Clean::Remove => Seq::empty(),
    }
}

/// What is said before anything is removed.
pub fn clean_lines(c: &Clean) -> (r: Vec<String>)
    ensures
        r.deep_view() == clean_words(*c),
{
    let said: Vec<&str> = match c {
        Clean::Nothing => vec!["nothing to do: no cgrun cgroups"],
        Clean::Preview(lines) => borrowed(lines),
        Clean::Remove => Vec::new(),
    };
    assert(said.deep_view() =~= clean_words(*c));
    owned(said.as_slice())
}

/// Says that a call for privileges removed what was left.
pub fn clean_escalated_message() -> (r: &'static str)
    ensures
        r@ == "clean done (escalated)"@,
{
    "clean done (escalated)"
}

/// How far removing cgroups one after the other has come.
#[derive(Debug)]
pub struct Cleaning {
    total: usize,
    tried: usize,
    failed: usize,
}

/// What a `Cleaning` says.
pub ghost struct Cleanup {
    /// How many cgroups there are to remove.
    pub total: nat,
    /// How many of them have been tried.
    pub tried: nat,
    /// How many of those could not be removed.
    pub failed: nat,
}

impl Cleanup {
    /// The place of the cgroup to try next.
    pub open spec fn next(self) -> Option<nat> {
        if self.tried < self.total {
            Some(self.tried)
        } else {
            None
        }
    }

    /// After the next cgroup was tried: a failure is counted, and stops nothing.
    pub open spec fn took(self, ok: bool) -> Cleanup {
        if self.tried >= self.total {
            self
        } else {
            Cleanup {
                total: self.total,
                tried: self.tried + 1,
                failed: if ok {
                    self.failed
                } else {
                    self.failed + 1
                },
            }
        }
    }
}

impl View for Cleaning {
    type V = Cleanup;

    closed spec fn view(&self) -> Cleanup {
        Cleanup {
            total: self.total as nat,
            tried: self.tried as nat,
            failed: self.failed as nat,
        }
    }
}

impl Cleaning {
    #[verifier::type_invariant]
    spec fn in_range(self) -> bool {
        self.failed <= self.tried <= self.total
    }

    /// Before the first of `n` cgroups is tried.
    pub fn start(n: usize) -> (r: Cleaning)
        ensures
            r@ == (Cleanup { total: n as nat, tried: 0, failed: 0 }),
    {
        Cleaning { total: n, tried: 0, failed: 0 }
    }

    /// The place of the cgroup to try next, or `None` where all have been tried.
    pub fn next(&self) -> (r: Option<usize>)
        ensures
            match r {
                Some(i) => self@.next() == Some(i as nat),
                None => self@.next() is None,
            },
    {
        if self.tried < self.total {
            Some(self.tried)
        } else {
            None
        }
    }

    /// Takes in whether the cgroup that was tried is removed.
    pub fn took(&mut self, ok: bool)
        ensures
            final(self)@ == old(self)@.took(ok),
    {
        proof {
            use_type_invariant(&*self);
        }
        if self.tried < self.total {
            let failed = if ok {
                self.failed
            } else {
                self.failed + 1
            };
            *self = Cleaning { total: self.total, tried: self.tried + 1, failed };
        }
    }

    /// How many cgroups could not be removed.
    pub fn failed(&self) -> (r: usize)
        ensures
            r == self@.failed,
            r <= self@.tried <= self@.total,
    {
        proof {
            use_type_invariant(self);
        }
        self.failed
    }
}

/// Removing `n` cgroups once `k` of them have been tried, where trying the `i`th
/// gives `answers[i]`.
pub open spec fn cleaned_to(n: nat, answers: Seq<bool>, k: nat) -> Cleanup
    decreases k,
{
    if k == 0 {
        Cleanup { total: n, tried: 0, failed: 0 }
    } else {
        cleaned_to(n, answers, (k - 1) as nat).took(answers[k - 1])
    }
}

/// How many of the first `k` answers are refusals.
pub open spec fn refusals(answers: Seq<bool>, k: nat) -> nat
    decreases k,
{
    if k == 0 {
        0
    } else {
        refusals(answers, (k - 1) as nat) + if answers[k - 1] {
            0nat
        } else {
            1
        }
    }
}

/// One failure does not stop the others: whatever came of those before, the
/// cgroups are tried from the first to the last, each once and in order, and
/// those that could not be removed are counted.
pub proof fn law_cleaning_tries_all(n: nat, answers: Seq<bool>, k: nat)
    requires
        k <= n,
    ensures
        cleaned_to(n, answers, k) == (Cleanup {
            total: n,
            tried: k,
            failed: refusals(answers, k),
        }),
        k < n ==> cleaned_to(n, answers, k).next() == Some(k),
        k == n ==> cleaned_to(n, answers, k).next() is None,
        refusals(answers, k) <= k,
    decreases k,
{
    if k > 0 {
        law_cleaning_tries_all(n, answers, (k - 1) as nat);
    }
}

/// How cleaning up ends.
#[derive(Clone, Copy, Debug, PartialEq, Eq, Structural)]
pub enum CleanEnd {
    /// All is removed.
    Done,
    /// Call for privileges to remove what is left.
    Escalate,
    /// Something is left.
    Left,
}

/// How cleaning up ends, where `failed` of the cgroups could not be removed.
/// Root has nobody to call.
pub fn after_clean(failed: usize, is_root: bool) -> (r: CleanEnd)
    ensures
        r == if failed == 0 {
            CleanEnd::Done
        } else if is_root {
            CleanEnd::Left
        } else {
            CleanEnd::Escalate
        },
{
    if failed == 0 {
        CleanEnd::Done
    } else if is_root {
        CleanEnd::Left
    } else {
        CleanEnd::Escalate
    }
}

/// Says how many cgroups were removed, where there were any.
pub fn cleaned_message(c: &Cleaning) -> (r: Option<String>)
    ensures
        match r {
            Some(t) => c@.failed < c@.tried && t@ == "cleaned "@ + decimal(
                (c@.tried - c@.failed) as nat,
            ) + " cgroup(s)"@,
            None => c@.failed == c@.tried,
        },
{
    proof {
        use_type_invariant(c);
    }
    let removed: usize = c.tried - c.failed;
    if removed == 0 {
        None
    } else {
        Some("cleaned ".to_owned().concat(show(removed as u64).as_str()).concat(" cgroup(s)"))
    }
}

/// Says how many cgroups are left.
pub fn left_message(failed: usize, is_root: bool) -> (r: String)
    ensures
        r@ == "could not remove "@ + decimal(failed as nat) + (if is_root {
            " cgroup(s) (see errors above)"@
        } else {
            " cgroup(s) (permission denied = not yours; run as owner or root)"@
        }),
{
    let why = if is_root {
        " cgroup(s) (see errors above)"
    } else {
        " cgroup(s) (permission denied = not yours; run as owner or root)"
    };
    "could not remove ".to_owned().concat(show(failed as u64).as_str()).concat(why)
}

/// Whether a path leads upwards anywhere.
pub open spec fn leads_up(p: Seq<char>) -> bool {
    exists|i: int| 0 <= i < components(p).len() && #[trigger] components(p)[i] == Component::Up
}

proof fn lemma_goes_up(p: Seq<char>)
    ensures
        goes_up(p) == leads_up(p),
{
    if goes_up(p) {
        let i = choose|i: int| 0 <= i < parts(p).len() && (#[trigger] parts(p)[i]).kind == Kind::Up;
        assert(components(p)[i] == Component::Up);
    }
    if leads_up(p) {
        let i = choose|i: int|
            0 <= i < components(p).len() && #[trigger] components(p)[i] == Component::Up;
        assert(parts(p)[i].kind == Kind::Up);
    }
}

/// An absolute path stands for itself where it lies under the mount and nowhere
/// leads upwards; any other stands for its place below the mount where all of
/// its components are names. Nothing else stands for a cgroup, and each text
/// that does not is refused for what is wrong with it.
pub proof fn law_places(mount: Seq<char>, input: Seq<char>)
    ensures
        place_fault(mount, input) == Some(ResolveError::Blank) <==> trimmed(input).len() == 0,
        trimmed(input).len() > 0 && input[0] == '/' ==> {
            &&& place_of(mount, input) == input
            &&& place_fault(mount, input) == if !lies_under(mount, input) {
                Some(ResolveError::Outside)
            } else if leads_up(input) {
                Some(ResolveError::Invalid)
            } else {
                None
            }
        },
        trimmed(input).len() > 0 && input[0] != '/' ==> {
            &&& place_of(mount, input) == full_path(mount, input)
            &&& (exists|i: int|
                0 <= i < components(input).len() && !(#[trigger] components(input)[i] is Name))
                ==> place_fault(mount, input) == Some(ResolveError::Invalid)
            &&& (forall|i: int|
                0 <= i < components(input).len() ==> #[trigger] components(input)[i] is Name)
                ==> place_fault(mount, input) == if leads_up(mount) {
                Some(ResolveError::Invalid)
            } else {
                None
            }
        },
{
    lemma_goes_up(input);
    law_valid_paths(input);
    if trimmed(input).len() > 0 && input[0] != '/' && rel_fault(input) is None {
        law_valid_paths_stay_below(mount, input);
        let p = full_path(mount, input);
        lemma_goes_up(p);
        let m = components(mount);
        if leads_up(p) {
            let i = choose|i: int|
                0 <= i < components(p).len() && #[trigger] components(p)[i] == Component::Up;
            if i >= m.len() {
                assert(components(input)[i - m.len()] is Name);
            } else {
                assert(m[i] == Component::Up);
            }
        }
        if leads_up(mount) {
            let i = choose|i: int| 0 <= i < m.len() && #[trigger] m[i] == Component::Up;
            assert(components(p)[i] == Component::Up);
        }
    }
}

/// A text resolves where it stands for a place and a cgroup is there.
pub proof fn law_resolving(mount: Seq<char>, input: Seq<char>)
    ensures
        resolve_fault(mount, input, true) == place_fault(mount, input),
        resolve_fault(mount, input, false) is Some,
        place_fault(mount, input) is None ==> resolve_fault(mount, input, false) == Some(
            ResolveError::NotCgroup,
        ),
        place_fault(mount, input) is Some ==> resolve_fault(mount, input, false) == place_fault(
            mount,
            input,
        ),
{
}

/// The root of all cgroups is never signalled, frozen or thawed, however it is
/// written, and any other cgroup is where it is there.
pub proof fn law_the_root_is_spared(mount: Seq<char>, cgroup: Seq<char>, there: bool)
    ensures
        refusal_of(mount, cgroup, there) == if components(cgroup) == components(mount) {
            Some(Refusal::Root)
        } else if !there {
            Some(Refusal::Missing)
        } else {
            None
        },
{
}

/// The helper does what one option asks of it, for the owner and the process
/// that the others name; it does nothing where two options ask, where what one
/// needs is missing, or where none asks.
pub proof fn law_requests(o: Options)
    ensures
        ({
            let alone = |n: int|
                (o.setup_base is Some) == (n == 1) && (o.create is Some) == (n == 2) && (
                o.clean is Some) == (n == 3) && (o.move_rel is Some) == (n == 4);
            let r = request_of(true, o);
            &&& (r is Ok && r->Ok_0 is Setup) <==> alone(1)
                && o.move_pid is None && o.owner_uid is Some && o.owner_gid is Some
            &&& (r is Ok && r->Ok_0 is Create) <==> alone(2)
                && o.move_pid is None && o.owner_uid is Some && o.owner_gid is Some
            &&& (r is Ok && r->Ok_0 is Clean) <==> alone(3) && o.move_pid is None
                && o.owner_uid is Some
            &&& (r is Ok && r->Ok_0 is Move) <==> alone(4) && o.move_pid is Some
            &&& r matches Ok(RequestText::Setup { base, uid, gid }) ==> base == o.setup_base->0@
                && uid == o.owner_uid->0 && gid == o.owner_gid->0
            &&& r matches Ok(RequestText::Create { rel, uid, gid }) ==> rel == o.create->0@ && uid
                == o.owner_uid->0 && gid == o.owner_gid->0
            &&& r matches Ok(RequestText::Clean { base, uid }) ==> base == o.clean->0@ && uid
                == o.owner_uid->0
            &&& r matches Ok(RequestText::Move { rel, pid }) ==> rel == o.move_rel->0@ && pid
                == o.move_pid->0
        }),
        request_of(false, o) == Err::<RequestText, RequestError>(RequestError::NotRoot),
{
}

/// Before anything is removed, every cgroup that would be is named on a line of
/// its own, in their order, after their number.
pub proof fn law_preview(targets: Seq<Seq<char>>, i: int)
    requires
        0 <= i < targets.len(),
    ensures
        preview_lines(targets).len() == targets.len() + 2,
        preview_lines(targets)[0] == "will delete "@ + decimal(targets.len()) + " cgroup(s):"@,
        preview_lines(targets)[i + 1] == "  "@ + targets[i],
        preview_lines(targets).last() == "run with --force to confirm"@,
{
}

/// The helper says what is missing: the owner's user before the owner's group,
/// the process of a move, the place of a process; that nothing is asked; or that
/// more than one thing is.
pub proof fn law_requests_refused(o: Options)
    ensures
        ({
            let asked = (if o.setup_base is Some {
                1int
            } else {
                0
            }) + (if o.create is Some {
                1int
            } else {
                0
            }) + (if o.clean is Some {
                1int
            } else {
                0
            }) + (if o.move_rel is Some {
                1int
            } else {
                0
            });
            let r = request_of(true, o);
            &&& asked > 1 ==> r == Err::<RequestText, RequestError>(RequestError::Several)
            &&& asked == 1 && o.move_rel is None && o.move_pid is Some ==> r == Err::<
                RequestText,
                RequestError,
            >(RequestError::Several)
            &&& asked == 0 && o.move_pid is None ==> r == Err::<RequestText, RequestError>(
                RequestError::Nothing,
            )
            &&& asked == 0 && o.move_pid is Some ==> r == Err::<RequestText, RequestError>(
                RequestError::MoveRel,
            )
            &&& asked == 1 && o.move_rel is Some && o.move_pid is None ==> r == Err::<
                RequestText,
                RequestError,
            >(RequestError::MovePid)
            &&& asked == 1 && o.move_pid is None && o.owner_uid is None ==> (o.setup_base is Some
                ==> r == Err::<RequestText, RequestError>(RequestError::SetupUid)) && (
            o.create is Some ==> r == Err::<RequestText, RequestError>(RequestError::CreateUid))
                && (o.clean is Some ==> r == Err::<RequestText, RequestError>(
                RequestError::CleanUid,
            ))
            &&& asked == 1 && o.move_pid is None && o.owner_uid is Some && o.owner_gid is None ==> (
            o.setup_base is Some ==> r == Err::<RequestText, RequestError>(RequestError::SetupGid))
                && (o.create is Some ==> r == Err::<RequestText, RequestError>(
                RequestError::CreateGid,
            ))
        }),
{
}

/// A text that stands for no cgroup is quoted with what is wrong with it; where
/// there is no cgroup, its place is named.
pub proof fn law_resolve_complaints(mount: Seq<char>, input: Seq<char>)
    requires
        input.len() > 0,
    ensures
        resolve_complaint(ResolveError::Blank, mount, input) == "invalid cgroup path ''"@,
        resolve_complaint(ResolveError::Invalid, mount, input) == "invalid cgroup path '"@ + input
            + "'"@,
        resolve_complaint(ResolveError::Outside, mount, input) == "invalid cgroup path '"@ + input
            + "': outside "@ + mount,
        resolve_complaint(ResolveError::NotCgroup, mount, input) == "not a cgroup: "@ + (
        if input[0] == '/' {
            input
        } else {
            full_path(mount, input)
        }),
{
}

/// What is said before anything is removed are the lines of the preview, or that
/// there is nothing to do.
pub proof fn law_clean_words(lines: Vec<String>)
    ensures
        clean_words(Clean::Nothing) == seq!["nothing to do: no cgrun cgroups"@],
        clean_words(Clean::Preview(lines)) == lines.deep_view(),
        clean_words(Clean::Remove).len() == 0,
{
}

} // verus!
