//! Signalling one cgroup, and removing it where it is the runner's own.

use vstd::prelude::*;

use crate::cgroup::{
    is_transient, is_transient_leaf_name, law_all_processes_are_read, law_any_base_will_do,
    law_base_holds_its_own, members, pids, procs_text, under_any_base, under_base, under_bases,
};
use crate::fault::{
    denied, is_enotsup, is_permission_error, permission_error, unsupported, unsupported_error,
    IoCause,
};
use crate::number::{decimal, show};
use crate::path::{
    below, components, file_name, is_name, joined, last_name, law_below_the_mount, lies_under,
    strip_mount,
};
use crate::signal::{SIGKILL, Signal};
use crate::text::{joined_texts, stripped, text_in, Margin};

verus! {

/// The base of the cgroups that are made with privileges.
pub const BASE: &'static str = "cgrun";

/// The base of the cgroups that root makes.
pub const ROOT_BASE: &'static str = "cgrun-root";

/// Whether a cgroup is the runner's own: it lies at or below the base or the
/// base of root's cgroups, or it is named as a transient leaf, wherever it lies
/// below the mount.
pub open spec fn cgrun_target(mount: Seq<char>, base: Seq<char>, p: Seq<char>) -> bool {
    match below(mount, p) {
        Some(rel) => under_bases(rel, seq![base, ROOT_BASE@]) || match file_name(p) {
            Some(name) => is_transient(name),
            None => false,
        },
        None => false,
    }
}

/// Whether a cgroup is the runner's own.
pub fn is_cgrun_target(mount: &str, base: &str, p: &str) -> (r: bool)
    ensures
        r == cgrun_target(mount@, base@, p@),
{
    let rel = match strip_mount(mount, p) {
        Some(rel) => rel,
        None => {
            return false;
        },
    };
    let bases: Vec<&str> = vec![base, ROOT_BASE];
    assert(bases.deep_view() =~= seq![base@, ROOT_BASE@]);
    if under_any_base(rel, bases.as_slice()) {
        return true;
    }
    match last_name(p) {
        Some(name) => is_transient_leaf_name(name),
        None => false,
    }
}

/// How a cgroup is signalled.
#[derive(Clone, Copy, Debug, PartialEq, Eq, Structural)]
pub struct Target {
    /// Whether it is the runner's own.
    pub owned: bool,
    /// Whether its tree is killed; else the signal is sent to the tree.
    pub kill: bool,
}

/// Says how a cgroup is signalled.
pub fn signal_cgroup(mount: &str, base: &str, cgroup: &str, sig: Signal) -> (r: Target)
    ensures
        r.owned == cgrun_target(mount@, base@, cgroup@),
        r.kill == (sig@ == SIGKILL),
{
    Target { owned: is_cgrun_target(mount, base, cgroup), kill: sig.number()
        == Signal::kill().number() }
}

/// What comes after the signal.
#[derive(Clone, Copy, Debug, PartialEq, Eq, Structural)]
pub enum AfterSignal {
    /// Remove the cgroup.
    Remove,
    /// Keep it: it is not the runner's.
    Keep,
    /// Give up: it could not be signalled.
    Fail,
}

/// What comes after the signal. `refused` holds the causes where it failed: a
/// system that does not offer to kill is no reason to keep what is the runner's.
pub open spec fn after_signal_of(owned: bool, refused: Option<Seq<IoCause>>) -> AfterSignal {
    let go_on = match refused {
        None => true,
        Some(causes) => owned && unsupported_error(causes),
    };
    if !go_on {
        AfterSignal::Fail
    } else if owned {
        AfterSignal::Remove
    } else {
        AfterSignal::Keep
    }
}

/// The causes in an optional list.
pub open spec fn causes_in(c: Option<&[IoCause]>) -> Option<Seq<IoCause>> {
    match c {
        Some(causes) => Some(causes@),
        None => None,
    }
}

/// What comes after the signal.
pub fn after_signal(owned: bool, refused: Option<&[IoCause]>) -> (r: AfterSignal)
    ensures
        r == after_signal_of(owned, causes_in(refused)),
{
    if let Some(causes) = refused {
        if !(owned && is_enotsup(causes)) {
            return AfterSignal::Fail;
        }
    }
    if owned {
        AfterSignal::Remove
    } else {
        AfterSignal::Keep
    }
}

/// What comes after the removal.
#[derive(Clone, Copy, Debug, PartialEq, Eq, Structural)]
pub enum AfterRemoval {
    /// The cgroup is removed.
    Removed,
    /// It belongs to someone else.
    Denied,
    /// Something is left in it.
    Remains,
}

/// What comes after the removal. `refused` holds the causes where it failed.
pub open spec fn after_removal_of(refused: Option<Seq<IoCause>>) -> AfterRemoval {
    match refused {
        None => AfterRemoval::Removed,
        Some(causes) => if permission_error(causes) {
            AfterRemoval::Denied
        } else {
            AfterRemoval::Remains
        },
    }
}

/// What comes after the removal.
pub fn after_removal(refused: Option<&[IoCause]>) -> (r: AfterRemoval)
    ensures
        r == after_removal_of(causes_in(refused)),
{
    match refused {
        None => AfterRemoval::Removed,
        Some(causes) => if is_permission_error(causes) {
            AfterRemoval::Denied
        } else {
            AfterRemoval::Remains
        },
    }
}

/// What to say where a cgroup was signalled and removed.
pub fn removed_message(cgroup: &str, sig: &str) -> (r: String)
    ensures
        r@ == "signaled "@ + cgroup@ + " with "@ + sig@ + " and removed it"@,
{
    "signaled ".to_owned().concat(cgroup).concat(" with ").concat(sig).concat(" and removed it")
}

/// What to say where a cgroup was signalled and kept.
pub fn kept_message(cgroup: &str, sig: &str) -> (r: String)
    ensures
        r@ == "signaled "@ + cgroup@ + " with "@ + sig@ + " (kept: not a cgrun cgroup)"@,
{
    "signaled ".to_owned().concat(cgroup).concat(" with ").concat(sig).concat(
        " (kept: not a cgrun cgroup)",
    )
}

/// What to say where a cgroup belongs to someone else.
pub fn denied_message(cgroup: &str, sig: &str) -> (r: String)
    ensures
        r@ == "signaled "@ + cgroup@ + " with "@ + sig@
            + ", but cannot remove it: permission denied (not yours?)"@,
{
    "signaled ".to_owned().concat(cgroup).concat(" with ").concat(sig).concat(
        ", but cannot remove it: permission denied (not yours?)",
    )
}

/// How many processes the text of a `cgroup.procs` names, as a text.
pub open spec fn count_text(procs: Option<Seq<char>>) -> Seq<char> {
    match procs {
        Some(data) => decimal(pids(data).len()),
        None => "unknown"@,
    }
}

/// What to say where something is left in a cgroup. `procs` is the text of its
/// `cgroup.procs`, and `error` says why it was not removed.
pub fn remains_message(cgroup: &str, sig: &str, procs: Option<&str>, error: &str) -> (r: String)
    ensures
        r@ == "signaled "@ + cgroup@ + " with "@ + sig@ + ", but "@ + count_text(text_in(procs))
            + " process(es) remain — cgroup not removed (use -s KILL to force): "@ + error@,
{
    let count = match procs {
        Some(data) => show(members(data).len() as u64),
        None => "unknown".to_owned(),
    };
    "signaled ".to_owned().concat(cgroup).concat(" with ").concat(sig).concat(", but ").concat(
        count.as_str(),
    ).concat(" process(es) remain — cgroup not removed (use -s KILL to force): ").concat(error)
}

/// A cgroup that is not the runner's own is never removed, whatever came of the
/// signal; one that is the runner's own is, unless the signal failed for
/// another reason than that the system does not offer it.
pub proof fn law_foreign_cgroups_are_kept(
    mount: Seq<char>,
    base: Seq<char>,
    p: Seq<char>,
    refused: Option<Seq<IoCause>>,
)
    ensures
        after_signal_of(cgrun_target(mount, base, p), refused) == AfterSignal::Remove
            <==> cgrun_target(mount, base, p) && (refused matches Some(causes)
            ==> unsupported_error(causes)),
{
}

/// After the signal, a cgroup is removed where it is the runner's own and kept
/// where it is not, and a failure is one. Only that the system does not offer to
/// kill counts as none, and only for what is the runner's own.
pub proof fn law_after_the_signal(causes: Seq<IoCause>)
    ensures
        after_signal_of(true, None) == AfterSignal::Remove,
        after_signal_of(false, None) == AfterSignal::Keep,
        after_signal_of(false, Some(causes)) == AfterSignal::Fail,
        (exists|i: int| 0 <= i < causes.len() && unsupported(#[trigger] causes[i]))
            ==> after_signal_of(true, Some(causes)) == AfterSignal::Remove,
        (forall|i: int| 0 <= i < causes.len() ==> !unsupported(#[trigger] causes[i]))
            ==> after_signal_of(true, Some(causes)) == AfterSignal::Fail,
{
}

/// A removal that was refused was denied where a cause says so, and else
/// something is left.
pub proof fn law_after_the_removal(causes: Seq<IoCause>)
    ensures
        after_removal_of(None) == AfterRemoval::Removed,
        (exists|i: int| 0 <= i < causes.len() && denied(#[trigger] causes[i])) ==> after_removal_of(
            Some(causes),
        ) == AfterRemoval::Denied,
        (forall|i: int| 0 <= i < causes.len() ==> !denied(#[trigger] causes[i]))
            ==> after_removal_of(Some(causes)) == AfterRemoval::Remains,
{
}

/// All processes that are left are counted.
pub proof fn law_all_that_remain_are_counted(ps: Seq<i32>)
    ensures
        count_text(Some(procs_text(ps))) == decimal(ps.len()),
        count_text(None) == "unknown"@,
{
    law_all_processes_are_read(ps);
}

/// A cgroup is the runner's own where its path below the mount is the base or
/// `cgrun-root`, or goes on from either with a slash, and where its own name is
/// that of a transient leaf; elsewhere below the mount none is.
pub proof fn law_own_cgroups(mount: Seq<char>, base: Seq<char>, names: Seq<Seq<char>>)
    requires
        mount.len() > 0,
        names.len() > 0,
        forall|i: int| 0 <= i < names.len() ==> is_name(#[trigger] names[i]),
        base.len() > 0,
        base[0] != '/',
        base.last() != '/',
    ensures
        ({
            let rel = joined_texts(names, seq!['/']);
            cgrun_target(mount, base, joined(mount, rel)) <==> {
                ||| rel == base
                ||| exists|t: Seq<char>| rel == #[trigger] (base + "/"@ + t)
                ||| rel == "cgrun-root"@
                ||| exists|t: Seq<char>| rel == #[trigger] ("cgrun-root"@ + "/"@ + t)
                ||| is_transient(names.last())
            }
        }),
{
    let rel = joined_texts(names, seq!['/']);
    let bases = seq![base, ROOT_BASE@];
    reveal_strlit("cgrun-root");
    law_below_the_mount(mount, names);
    law_any_base_will_do(rel, seq![base], seq![ROOT_BASE@]);
    law_any_base_will_do(rel, seq![ROOT_BASE@], Seq::empty());
    assert(bases =~= seq![base] + seq![ROOT_BASE@]);
    law_base_holds_its_own(rel, base, Seq::empty());
    law_base_holds_its_own(rel, "cgrun-root"@, Seq::empty());
}

/// What does not lie below the mount is never the runner's own, and nor is the
/// mount itself, unless it is named as a transient leaf.
pub proof fn law_foreign_places(mount: Seq<char>, base: Seq<char>, p: Seq<char>)
    ensures
        !lies_under(mount, p) ==> !cgrun_target(mount, base, p),
        (file_name(mount) is None || !is_transient(file_name(mount)->0)) ==> !cgrun_target(
            mount,
            base,
            mount,
        ),
{
    assert(components(mount).take(components(mount).len() as int) =~= components(mount));
    let none = Seq::<char>::empty();
    assert(below(mount, mount) == Some(none));
    assert forall|b: Seq<char>| !#[trigger] under_base(none, b) by {
        reveal_strlit("/");
        let c = stripped(b, Margin::Slash);
        assert((c + "/"@).len() > 0);
    }
}

} // verus!
