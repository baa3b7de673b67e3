//! Starting a command inside its cgroup, and ending what is left of it.

use vstd::prelude::*;

use crate::cgroup::{law_all_processes_are_read, members, pids, procs_text};
use crate::fault::{
    denied, is_enotsup, is_permission_error, permission_error, unsupported, unsupported_error,
    IoCause,
};
use crate::kill::causes_in;
use crate::path::{parent, parent_path};
use crate::signal::{SIGTERM, Signal};
use crate::text::{has_char, text_in};

verus! {

/// The exit code of a command that was never put into its cgroup.
pub const NOT_MOVED: i32 = 125;

/// The exit code of a command that could not be executed.
pub const NOT_EXECUTED: i32 = 127;

/// Why a command cannot be started.
#[derive(Clone, Copy, Debug, PartialEq, Eq, Structural)]
pub enum CommandError {
    /// There is none.
    Empty,
    /// The argument in place `at` holds a NUL character.
    Nul { at: usize },
}

/// The place of the first argument with a NUL character, from place `i` on.
pub open spec fn nul_from(cmd: Seq<Seq<char>>, i: int) -> Option<int>
    decreases cmd.len() - i,
{
    if !(0 <= i < cmd.len()) {
        None
    } else if cmd[i].contains('\0') {
        Some(i)
    } else {
        nul_from(cmd, i + 1)
    }
}

/// What is wrong with a command.
pub open spec fn command_fault(cmd: Seq<Seq<char>>) -> Option<CommandError> {
    if cmd.len() == 0 {
        Some(CommandError::Empty)
    } else {
        match nul_from(cmd, 0) {
            Some(at) => Some(CommandError::Nul { at: at as usize }),
            None => None,
        }
    }
}

/// Checks that a command can be started.
pub fn check_command(cmd: &[String]) -> (r: Result<(), CommandError>)
    ensures
        match r {
            Ok(_) => command_fault(cmd.deep_view()) is None,
            Err(e) => command_fault(cmd.deep_view()) == Some(e),
        },
{
    let ghost texts = cmd.deep_view();
    assert(texts.len() == cmd@.len());
    if cmd.len() == 0 {
        return Err(CommandError::Empty);
    }
    let mut i: usize = 0;
    while i < cmd.len()
        invariant
            i <= cmd.len() == texts.len(),
            cmd.len() > 0,
            texts == cmd.deep_view(),
            nul_from(texts, i as int) == nul_from(texts, 0),
        decreases cmd.len() - i,
    {
        assert(texts[i as int] == cmd@[i as int]@);
        if has_char(cmd[i].as_str(), '\0') {
            return Err(CommandError::Nul { at: i });
        }
        i = i + 1;
    }
    Ok(())
}

/// Says why a command cannot be started. `quoted` is the argument at fault, in
/// quotes and with its unprintable characters escaped.
pub fn command_message(e: CommandError, quoted: &str) -> (r: String)
    ensures
        r@ == match e {
            CommandError::Empty => "no command"@,
            CommandError::Nul { at } => "argument contains NUL: "@ + quoted@,
        },
{
    match e {
        CommandError::Empty => "no command".to_owned(),
        CommandError::Nul { at: _ } => "argument contains NUL: ".to_owned().concat(quoted),
    }
}

/// What the parent does once it tried to move its child into the cgroup.
#[derive(Clone, Copy, Debug, PartialEq, Eq, Structural)]
pub enum Parent {
    /// Wake the child, which then executes the command.
    Wake,
    /// Call for privileges to move the child.
    Escalate,
    /// Kill the child without waking it.
    Abort,
}

/// What the parent does once it tried to move its child. `refused` holds the
/// causes where that failed.
pub open spec fn after_move_of(
    refused: Option<Seq<IoCause>>,
    use_priv: bool,
    is_root: bool,
) -> Parent {
    match refused {
        None => Parent::Wake,
        Some(causes) => if use_priv && !is_root && permission_error(causes) {
            Parent::Escalate
        } else {
            Parent::Abort
        },
    }
}

/// What the parent does once it tried to move its child.
pub fn after_move(refused: Option<&[IoCause]>, use_priv: bool, is_root: bool) -> (r: Parent)
    ensures
        r == after_move_of(causes_in(refused), use_priv, is_root),
{
    match refused {
        None => Parent::Wake,
        Some(causes) => if use_priv && !is_root && is_permission_error(causes) {
            Parent::Escalate
        } else {
            Parent::Abort
        },
    }
}

/// What the parent does once it called for privileges to move its child.
pub fn after_escalated_move(moved: bool) -> (r: Parent)
    ensures
        r == if moved {
            Parent::Wake
        } else {
            Parent::Abort
        },
{
    if moved {
        Parent::Wake
    } else {
        Parent::Abort
    }
}

/// Whether the child is woken. `escalated` says whether a call for privileges,
/// should there be one, moves the child.
pub open spec fn is_woken(
    refused: Option<Seq<IoCause>>,
    use_priv: bool,
    is_root: bool,
    escalated: bool,
) -> bool {
    match after_move_of(refused, use_priv, is_root) {
        Parent::Wake => true,
        Parent::Escalate => escalated,
        Parent::Abort => false,
    }
}

/// The child is woken only once it is in its cgroup: the parent moved it there,
/// or a call for privileges did, which is made for a run with `--priv` alone.
pub proof fn law_woken_in_its_cgroup(
    refused: Option<Seq<IoCause>>,
    use_priv: bool,
    is_root: bool,
    escalated: bool,
)
    ensures
        is_woken(refused, use_priv, is_root, escalated) <==> refused is None || (use_priv
            && !is_root && permission_error(refused->0) && escalated),
{
}

/// What the child does once its read of the pipe ended: it goes on where it got
/// the one byte with which its parent wakes it. Anything else means that it was
/// never moved, and it exits with the code that is given.
pub fn child_goes_on(read: Option<usize>) -> (r: Result<(), i32>)
    ensures
        match r {
            Ok(_) => read == Some(1usize),
            Err(code) => read != Some(1usize) && code == NOT_MOVED,
        },
{
    match read {
        Some(n) => if n == 1 {
            Ok(())
        } else {
            Err(NOT_MOVED)
        },
        None => Err(NOT_MOVED),
    }
}

/// Says why a command could not be moved into its cgroup.
pub open spec fn move_complaint(cgroup: Seq<char>, causes: Seq<IoCause>) -> Seq<char> {
    if unsupported_error(causes) {
        "move to "@ + cgroup
            + ": Operation not supported — delegation not properly enabled (parent "@ + (
        match parent(cgroup) {
            Some(p) => p,
            None => cgroup,
        })
            + " must be writable, have controllers in cgroup.controllers and +controllers in cgroup.subtree_control, and satisfy no-internal-process: no tasks in the parent when it has children)"@
    } else {
        "move to "@ + cgroup
    }
}

/// Says why a command could not be moved into its cgroup.
pub fn move_failed(cgroup: &str, causes: &[IoCause]) -> (r: String)
    ensures
        r@ == move_complaint(cgroup@, causes@),
{
    if is_enotsup(causes) {
        let above = match parent_path(cgroup) {
            Some(p) => p,
            None => cgroup,
        };
        "move to ".to_owned().concat(cgroup).concat(
            ": Operation not supported — delegation not properly enabled (parent ",
        ).concat(above).concat(
            " must be writable, have controllers in cgroup.controllers and +controllers in cgroup.subtree_control, and satisfy no-internal-process: no tasks in the parent when it has children)",
        )
    } else {
        "move to ".to_owned().concat(cgroup)
    }
}

/// What waiting for a child gave.
#[derive(Clone, Copy, Debug)]
pub enum Waited {
    /// It exited with a code.
    Exited(i32),
    /// A signal ended it.
    Signaled(Signal),
    /// It has not ended.
    Other,
}

/// The exit code of a run: the command's own, or 128 and the number of the
/// signal that ended it. `None` where it has not ended.
pub fn exit_code(w: Waited) -> (r: Option<i32>)
    ensures
        match w {
            Waited::Exited(code) => r == Some(code),
            Waited::Signaled(sig) => r matches Some(code) && code == 128 + sig@,
            Waited::Other => r is None,
        },
{
    match w {
        Waited::Exited(code) => Some(code),
        Waited::Signaled(sig) => Some(128 + sig.number()),
        Waited::Other => None,
    }
}

/// How ending what is left of a run begins.
#[derive(Clone, Copy, Debug)]
pub enum GraceStart {
    /// Kill the tree at once.
    Kill,
    /// Signal the tree, and see whether it ends by itself.
    Signal(Signal),
}

/// How ending what is left of a run begins: with a kill where there is no time
/// of grace, else with a request to terminate.
pub fn graceful_kill(grace: u64) -> (r: GraceStart)
    ensures
        match r {
            GraceStart::Kill => grace == 0,
            GraceStart::Signal(sig) => grace > 0 && sig@ == SIGTERM,
        },
{
    if grace == 0 {
        GraceStart::Kill
    } else {
        GraceStart::Signal(Signal::term())
    }
}

/// What is done with the cgroup of a command that has ended.
#[derive(Clone, Copy, Debug)]
pub enum AfterRun {
    /// It stays.
    Keep,
    /// What is left in it is ended in this way, and it is removed.
    Remove(GraceStart),
}

/// What is done with the cgroup of a command that has ended: one that was named
/// stays, and a transient one is removed.
pub fn after_run(stays: bool, grace: u64) -> (r: AfterRun)
    ensures
        match r {
            AfterRun::Keep => stays,
            AfterRun::Remove(GraceStart::Kill) => !stays && grace == 0,
            AfterRun::Remove(GraceStart::Signal(sig)) => !stays && grace > 0 && sig@ == SIGTERM,
        },
{
    if stays {
        AfterRun::Keep
    } else {
        AfterRun::Remove(graceful_kill(grace))
    }
}

/// What comes next during the time of grace.
#[derive(Clone, Copy, Debug, PartialEq, Eq, Structural)]
pub enum GraceStep {
    /// Nothing: nobody is left.
    Gone,
    /// Wait for so many milliseconds and look again.
    Wait(u64),
    /// Kill the tree.
    Kill,
}

/// What comes next during the time of grace, once `elapsed` seconds of it are
/// over. `procs` is the text of the cgroup's `cgroup.procs`, where it could be
/// read.
pub open spec fn grace_step_of(grace: u64, elapsed: u64, procs: Option<Seq<char>>) -> GraceStep {
    if elapsed >= grace {
        GraceStep::Kill
    } else {
        match procs {
            Some(data) => if pids(data).len() == 0 {
                GraceStep::Gone
            } else {
                GraceStep::Wait(100)
            },
            None => GraceStep::Wait(100),
        }
    }
}

/// What comes next during the time of grace.
pub fn grace_step(grace: u64, elapsed: u64, procs: Option<&str>) -> (r: GraceStep)
    ensures
        r == grace_step_of(grace, elapsed, text_in(procs)),
{
    if elapsed >= grace {
        return GraceStep::Kill;
    }
    match procs {
        Some(data) => if members(data).len() == 0 {
            GraceStep::Gone
        } else {
            GraceStep::Wait(100)
        },
        None => GraceStep::Wait(100),
    }
}

/// How the time of grace ends from the `i`th look on, where `looks` gives the
/// seconds elapsed and what each look found; `None` where it has not ended.
pub open spec fn grace_end(grace: u64, looks: Seq<(u64, Option<Seq<char>>)>, i: int) -> Option<
    GraceStep,
>
    decreases looks.len() - i,
{
    if !(0 <= i < looks.len()) {
        None
    } else {
        match grace_step_of(grace, looks[i].0, looks[i].1) {
            GraceStep::Wait(_) => grace_end(grace, looks, i + 1),
            end => Some(end),
        }
    }
}

/// Whether a look finds that nobody is left.
pub open spec fn finds_nobody(procs: Option<Seq<char>>) -> bool {
    procs matches Some(data) && pids(data).len() == 0
}

/// Whether the look `j` is the one that decides: the first that finds nobody or
/// comes after the time of grace.
pub open spec fn decides(
    grace: u64,
    looks: Seq<(u64, Option<Seq<char>>)>,
    i: int,
    j: int,
) -> bool {
    &&& i <= j < looks.len()
    &&& looks[j].0 >= grace || finds_nobody(looks[j].1)
    &&& forall|m: int| i <= m < j ==> (#[trigger] looks[m]).0 < grace && !finds_nobody(looks[m].1)
}

/// The tree is killed only where no look within the time of grace finds that
/// nobody is left, and only after that time.
pub proof fn law_grace_is_kept(grace: u64, looks: Seq<(u64, Option<Seq<char>>)>, i: int)
    requires
        0 <= i,
    ensures
        match grace_end(grace, looks, i) {
            Some(GraceStep::Kill) => exists|j: int| #[trigger]
                decides(grace, looks, i, j) && looks[j].0 >= grace,
            Some(GraceStep::Gone) => exists|j: int| #[trigger]
                decides(grace, looks, i, j) && looks[j].0 < grace,
            Some(GraceStep::Wait(_)) => false,
            None => forall|j: int| !#[trigger] decides(grace, looks, i, j),
        },
    decreases looks.len() - i,
{
    if i < looks.len() {
        let step = grace_step_of(grace, looks[i].0, looks[i].1);
        if step is Wait {
            law_grace_is_kept(grace, looks, i + 1);
            assert forall|j: int| #[trigger] decides(grace, looks, i, j) implies decides(
                grace,
                looks,
                i + 1,
                j,
            ) by {}
            assert forall|j: int| #[trigger] decides(grace, looks, i + 1, j) implies decides(
                grace,
                looks,
                i,
                j,
            ) by {}
        } else {
            assert(decides(grace, looks, i, i));
        }
    }
}

/// Says where a command runs, and whether its cgroup stays.
pub fn running_message(cgroup: &str, stays: bool) -> (r: String)
    ensures
        r@ == "running in "@ + cgroup@ + " (persistent="@ + (if stays {
            "true"@
        } else {
            "false"@
        }) + ")"@,
{
    let word = if stays {
        "true"
    } else {
        "false"
    };
    "running in ".to_owned().concat(cgroup).concat(" (persistent=").concat(word).concat(")")
}

proof fn lemma_nul_from(cmd: Seq<Seq<char>>, i: int)
    requires
        0 <= i <= cmd.len(),
    ensures
        match nul_from(cmd, i) {
            Some(at) => i <= at < cmd.len() && cmd[at].contains('\0') && forall|j: int|
                i <= j < at ==> !(#[trigger] cmd[j]).contains('\0'),
            None => forall|j: int| i <= j < cmd.len() ==> !(#[trigger] cmd[j]).contains('\0'),
        },
    decreases cmd.len() - i,
{
    if i < cmd.len() && !cmd[i].contains('\0') {
        lemma_nul_from(cmd, i + 1);
    }
}

/// A command can be started where it has a first word and no word holds a NUL
/// character; else the first word that does is at fault.
pub proof fn law_commands(cmd: Seq<Seq<char>>)
    requires
        cmd.len() <= usize::MAX,
    ensures
        command_fault(cmd) == Some(CommandError::Empty) <==> cmd.len() == 0,
        command_fault(cmd) is None <==> cmd.len() > 0 && forall|i: int|
            0 <= i < cmd.len() ==> !(#[trigger] cmd[i]).contains('\0'),
        command_fault(cmd) matches Some(CommandError::Nul { at }) ==> at < cmd.len()
            && cmd[at as int].contains('\0') && forall|j: int|
            0 <= j < at ==> !(#[trigger] cmd[j]).contains('\0'),
{
    lemma_nul_from(cmd, 0);
}

/// A child that could not be moved is killed, but for a denied permission where
/// a run with privileges lacks them: then they are called for.
pub proof fn law_after_move(causes: Seq<IoCause>, use_priv: bool, is_root: bool)
    ensures
        after_move_of(None, use_priv, is_root) == Parent::Wake,
        after_move_of(Some(causes), use_priv, is_root) == Parent::Escalate <==> use_priv && !is_root
            && exists|i: int| 0 <= i < causes.len() && denied(#[trigger] causes[i]),
        after_move_of(Some(causes), use_priv, is_root) == Parent::Abort <==> !(use_priv && !is_root
            && exists|i: int| 0 <= i < causes.len() && denied(#[trigger] causes[i])),
{
}

/// Before the time of grace is over, the tree is left alone as long as anybody
/// is in it, or may be; after it, it is killed whoever is in it.
pub proof fn law_grace_steps(grace: u64, elapsed: u64, data: Seq<char>)
    ensures
        elapsed >= grace ==> grace_step_of(grace, elapsed, Some(data)) == GraceStep::Kill
            && grace_step_of(grace, elapsed, None) == GraceStep::Kill,
        elapsed < grace ==> grace_step_of(grace, elapsed, None) == GraceStep::Wait(100),
        elapsed < grace && pids(data).len() > 0 ==> grace_step_of(grace, elapsed, Some(data))
            == GraceStep::Wait(100),
        elapsed < grace && pids(data).len() == 0 ==> grace_step_of(grace, elapsed, Some(data))
            == GraceStep::Gone,
{
}

/// As long as one process is left in a cgroup within the time of grace, the
/// look goes on.
pub proof fn law_grace_waits_for_all(grace: u64, elapsed: u64, ps: Seq<i32>)
    requires
        elapsed < grace,
    ensures
        grace_step_of(grace, elapsed, Some(procs_text(ps))) == if ps.len() == 0 {
            GraceStep::Gone
        } else {
            GraceStep::Wait(100)
        },
{
    law_all_processes_are_read(ps);
}

/// Where the system does not offer the move, the cgroup above is named; else
/// only where the move was to go.
pub proof fn law_moves_refused(cgroup: Seq<char>, causes: Seq<IoCause>)
    ensures
        (forall|i: int| 0 <= i < causes.len() ==> !unsupported(#[trigger] causes[i]))
            ==> move_complaint(cgroup, causes) == "move to "@ + cgroup,
        (exists|i: int| 0 <= i < causes.len() && unsupported(#[trigger] causes[i])) && parent(
            cgroup,
        ) is Some ==> move_complaint(cgroup, causes) == "move to "@ + cgroup
            + ": Operation not supported — delegation not properly enabled (parent "@ + parent(
            cgroup,
        )->0
            + " must be writable, have controllers in cgroup.controllers and +controllers in cgroup.subtree_control, and satisfy no-internal-process: no tasks in the parent when it has children)"@,
{
}

} // verus!
