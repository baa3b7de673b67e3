//! Making sure that a run's cgroup is there: whether to make it, with whose
//! rights, and where controllers are switched on for it.

use vstd::prelude::*;

use crate::cgroup::full_path;
use crate::control::{first_names, hierarchy, leading_names, parent_or_empty};
use crate::fault::{busy, delegation_error, denied, is_delegation_error, IoCause};
use crate::path::{
    components, is_dot, is_name, joined, leads_with_dot, lemma_joined_components, lemma_name_parts,
    lemma_parent_components, lemma_parts_placed, parent, part_text, parts, shifted, Component, Kind,
};
use crate::privilege::{
    checked_path, lemma_names_stay_below, lemma_valid_names, names_below, only_names, path_fault,
    rel_fault,
};
use crate::text::{index_from, lemma_index_from};

verus! {

/// What is done so that a cgroup is there.
#[derive(Clone, Copy, Debug, PartialEq, Eq, Structural)]
pub enum Ensure {
    /// Nothing: it is there.
    Ready,
    /// Call for privileges to create it.
    Escalate,
    /// Switch the controllers on that the run needs, and create it.
    Create,
}

/// What is done so that a cgroup is there: only a run with privileges calls for
/// them, and not where it has them already.
pub open spec fn ensure_of(exists: bool, use_priv: bool, is_root: bool) -> Ensure {
    if exists {
        Ensure::Ready
    } else if use_priv && !is_root {
        Ensure::Escalate
    } else {
        Ensure::Create
    }
}

/// Says where a cgroup lies and what is done so that it is there; `None` where
/// its path is not valid.
pub fn ensure_exists(
    mount: &str,
    rel: &str,
    exists: bool,
    use_priv: bool,
    is_root: bool,
) -> (r: Option<(String, Ensure)>)
    ensures
        match r {
            Some((dir, todo)) => path_fault(mount@, rel@) is None && dir@ == full_path(
                mount@,
                rel@,
            ) && todo == ensure_of(exists, use_priv, is_root),
            None => path_fault(mount@, rel@) is Some,
        },
{
    match checked_path(mount, rel) {
        Err(_) => None,
        Ok(dir) => Some(
            (
                dir,
                if exists {
                    Ensure::Ready
                } else if use_priv && !is_root {
                    Ensure::Escalate
                } else {
                    Ensure::Create
                },
            ),
        ),
    }
}

/// Says that a path is not valid.
pub fn invalid_path(rel: &str) -> (r: String)
    ensures
        r@ == "invalid cgroup path '"@ + rel@ + "'"@,
{
    "invalid cgroup path '".to_owned().concat(rel).concat("'")
}

/// Says that a component of a path is no name.
pub fn invalid_component(rel: &str) -> (r: String)
    ensures
        r@ == "invalid path component in '"@ + rel@ + "'"@,
{
    "invalid path component in '".to_owned().concat(rel).concat("'")
}

/// Says that the call for privileges failed.
pub fn escalation_denied(mount: &str, exe: &str) -> (r: String)
    ensures
        r@ == "permission denied on "@ + mount@ + ": run `pkexec "@ + exe@ + " setup` once"@,
{
    "permission denied on ".to_owned().concat(mount).concat(": run `pkexec ").concat(exe).concat(
        " setup` once",
    )
}

/// After a call for privileges that succeeded: the cgroup has to be there.
pub fn after_escalation(dir: &str, exists: bool) -> (r: Result<(), String>)
    ensures
        match r {
            Ok(_) => exists,
            Err(t) => !exists && t@ == "pkexec succeeded but "@ + dir@ + " still missing"@,
        },
{
    if exists {
        Ok(())
    } else {
        Err("pkexec succeeded but ".to_owned().concat(dir).concat(" still missing"))
    }
}

/// Says why a cgroup could not be created.
pub open spec fn create_complaint(dir: Seq<char>, causes: Seq<IoCause>) -> Seq<char> {
    if delegation_error(causes) {
        "cannot create cgroup "@ + dir
            + ": parent is not delegated to you: Check delegation permissions or run with --priv"@
    } else {
        "mkdir "@ + dir + " failed"@
    }
}

/// Says why a cgroup could not be created.
pub fn create_failed(dir: &str, causes: &[IoCause]) -> (r: String)
    ensures
        r@ == create_complaint(dir@, causes@),
{
    if is_delegation_error(causes) {
        "cannot create cgroup ".to_owned().concat(dir).concat(
            ": parent is not delegated to you: Check delegation permissions or run with --priv",
        )
    } else {
        "mkdir ".to_owned().concat(dir).concat(" failed")
    }
}

/// The controllers that a run needs, in the order in which they are switched on.
pub open spec fn needed(dmem: bool, memory: bool, cpu: bool) -> Seq<Seq<char>> {
    let one = if dmem {
        seq!["dmem"@]
    } else {
        Seq::empty()
    };
    let two = if memory {
        one.push("memory"@)
    } else {
        one
    };
    if cpu {
        two.push("cpu"@)
    } else {
        two
    }
}

/// The controllers that a run needs, in the order in which they are switched on.
pub fn needed_controllers(dmem: bool, memory: bool, cpu: bool) -> (r: Vec<&'static str>)
    ensures
        r.deep_view() == needed(dmem, memory, cpu),
{
    let mut r: Vec<&'static str> = Vec::new();
    if dmem {
        r.push("dmem");
    }
    if memory {
        r.push("memory");
    }
    if cpu {
        r.push("cpu");
    }
    assert(r.deep_view() =~= needed(dmem, memory, cpu));
    r
}

/// A run without privileges never calls for them, and a run that has them
/// neither.
pub proof fn law_only_privileged_runs_escalate(exists: bool, use_priv: bool, is_root: bool)
    ensures
        ensure_of(exists, use_priv, is_root) == Ensure::Escalate ==> use_priv && !is_root,
        exists ==> ensure_of(exists, use_priv, is_root) == Ensure::Ready,
{
}

/// A controller is switched on for a run where it is asked for and nowhere
/// else.
pub proof fn law_only_needed_controllers(dmem: bool, memory: bool, cpu: bool)
    ensures
        needed(dmem, memory, cpu).contains("dmem"@) <==> dmem,
        needed(dmem, memory, cpu).contains("memory"@) <==> memory,
        needed(dmem, memory, cpu).contains("cpu"@) <==> cpu,
        forall|i: int|
            0 <= i < needed(dmem, memory, cpu).len() ==> {
                let c = #[trigger] needed(dmem, memory, cpu)[i];
                c == "dmem"@ || c == "memory"@ || c == "cpu"@
            },
{
    reveal_strlit("dmem");
    reveal_strlit("memory");
    reveal_strlit("cpu");
    let s = needed(dmem, memory, cpu);
    assert("dmem"@.len() == 4 && "memory"@.len() == 6 && "cpu"@.len() == 3);
    if dmem {
        assert(s[0] == "dmem"@);
    }
    if memory {
        assert(s[if dmem {
            1int
        } else {
            0
        }] == "memory"@);
    }
    if cpu {
        assert(s[s.len() - 1] == "cpu"@);
    }
}

/// The path above a path of names is made of names too.
pub proof fn lemma_above_names(rel: Seq<char>)
    requires
        names_below(rel),
    ensures
        only_names(parent_or_empty(rel)),
{
    if parent(rel) is Some {
        lemma_parent_components(rel);
        let above = parent_or_empty(rel);
        assert forall|i: int| 0 <= i < parts(above).len() implies (#[trigger] parts(
            above,
        )[i]).kind == Kind::Name by {
            assert(parts(rel)[i].kind == Kind::Name);
        }
    } else {
        assert(parts(parent_or_empty(rel)) =~= Seq::empty());
    }
}

proof fn lemma_leading_names(p: Seq<char>, k: int)
    requires
        only_names(p),
        0 <= k <= parts(p).len(),
    ensures
        leading_names(p, k) == parts(p).len(),
    decreases parts(p).len() - k,
{
    if k < parts(p).len() {
        assert(parts(p)[k].kind == Kind::Name);
        lemma_leading_names(p, k + 1);
    }
}

/// For a valid path, controllers are switched on at every ancestor: none is
/// left out because a component is no name.
pub proof fn law_valid_paths_have_whole_hierarchies(rel: Seq<char>)
    requires
        rel_fault(rel) is None,
    ensures
        leading_names(parent_or_empty(rel), 0) == parts(parent_or_empty(rel)).len(),
{
    lemma_valid_names(rel);
    lemma_above_names(rel);
    lemma_leading_names(parent_or_empty(rel), 0);
}

proof fn lemma_first_names(p: Seq<char>, k: int)
    requires
        only_names(p),
        0 <= k <= parts(p).len(),
    ensures
        components(first_names(p, k)) == components(p).take(k),
        k > 0 ==> names_below(first_names(p, k)),
        k == 0 ==> first_names(p, k).len() == 0,
    decreases k,
{
    if k == 0 {
        assert(components(first_names(p, 0)) =~= components(p).take(0));
    } else {
        lemma_first_names(p, k - 1);
        lemma_parts_placed(p);
        let q = parts(p)[k - 1];
        assert(q.kind == Kind::Name);
        let name = part_text(p, q);
        assert forall|j: int| 0 <= j < name.len() implies #[trigger] name[j] != '/' by {
            assert(name[j] == p[q.start + j]);
        }
        assert(is_name(name));
        lemma_name_parts(name);
        let base = first_names(p, k - 1);
        lemma_joined_components(base, name);
        let s = joined(base, name);
        assert(part_text(name, parts(name)[0]) =~= name);
        assert(components(name) =~= seq![Component::Name(name)]);
        assert(components(p)[k - 1] == Component::Name(name));
        assert(components(s) =~= components(p).take(k));
        assert forall|i: int| 0 <= i < parts(s).len() implies (#[trigger] parts(s)[i]).kind
            == Kind::Name by {
            if i < parts(base).len() {
                assert(k > 1);
                assert(parts(base)[i].kind == Kind::Name);
            } else {
                assert(parts(s)[i] == shifted(
                    parts(name),
                    s.len() - name.len(),
                )[i - parts(base).len()]);
            }
        }
        if base.len() > 0 {
            assert(s[0] == base[0]);
        } else {
            assert(s[0] == name[0]);
        }
    }
}

proof fn lemma_hierarchy(mount: Seq<char>, rel: Seq<char>, k: int)
    requires
        only_names(parent_or_empty(rel)),
        0 <= k <= parts(parent_or_empty(rel)).len(),
    ensures
        hierarchy(mount, rel, k).len() == k + 1,
        forall|i: int|
            0 <= i <= k ==> components(#[trigger] hierarchy(mount, rel, k)[i]) == components(mount)
                + components(parent_or_empty(rel)).take(i),
        hierarchy(mount, rel, k)[0] == mount,
    decreases k,
{
    let above = parent_or_empty(rel);
    let dirs = hierarchy(mount, rel, k);
    if k > 0 {
        lemma_hierarchy(mount, rel, k - 1);
        lemma_first_names(above, k);
        lemma_names_stay_below(mount, first_names(above, k));
        assert forall|i: int| 0 <= i <= k implies components(#[trigger] dirs[i]) == components(
            mount,
        ) + components(above).take(i) by {
            if i < k {
                assert(dirs[i] == hierarchy(mount, rel, k - 1)[i]);
            }
        }
    } else {
        assert(components(above).take(0) =~= Seq::empty());
        assert(components(mount) + components(above).take(0) =~= components(mount));
    }
}

/// Controllers are switched on from the top down: first at the mount, then at
/// each ancestor in turn, one component further each time, and last at the
/// cgroup above the run's own. No level is skipped.
pub proof fn law_hierarchy_goes_top_down(mount: Seq<char>, rel: Seq<char>)
    requires
        rel_fault(rel) is None,
    ensures
        ({
            let above = parent_or_empty(rel);
            let dirs = hierarchy(mount, rel, leading_names(above, 0));
            &&& dirs.len() == components(above).len() + 1
            &&& dirs[0] == mount
            &&& forall|i: int|
                0 <= i < dirs.len() ==> components(#[trigger] dirs[i]) == components(mount)
                    + components(above).take(i)
            &&& components(dirs.last()) == components(mount) + components(above)
        }),
{
    let above = parent_or_empty(rel);
    lemma_valid_names(rel);
    lemma_above_names(rel);
    lemma_leading_names(above, 0);
    let k = parts(above).len() as int;
    lemma_hierarchy(mount, rel, k);
    assert(components(above).take(k) =~= components(above));
}

/// A path of names has a component, and a path above it.
pub proof fn lemma_names_have_parts(rel: Seq<char>)
    requires
        names_below(rel),
    ensures
        parts(rel).len() > 0,
        parent(rel) is Some,
{
    lemma_index_from(rel, '/', 0);
    let e = index_from(rel, '/', 0);
    assert(e > 0);
    if leads_with_dot(rel) {
        assert(parts(rel)[0].kind == Kind::Here);
    } else if is_dot(rel, 0, e) {
        assert(leads_with_dot(rel));
    } else {
        assert(parts(rel).len() > 0);
    }
    assert(parts(rel)[parts(rel).len() - 1].kind == Kind::Name);
}

/// For a valid path there is one level for each of its components: the mount,
/// and then the path cut off after its first component, after its second, and
/// so on, up to the path above it.
pub proof fn law_one_level_for_each_component(mount: Seq<char>, rel: Seq<char>)
    requires
        rel_fault(rel) is None,
    ensures
        ({
            let dirs = hierarchy(mount, rel, leading_names(parent_or_empty(rel), 0));
            &&& dirs.len() == components(rel).len()
            &&& dirs[0] == mount
            &&& forall|i: int|
                0 <= i < dirs.len() ==> components(#[trigger] dirs[i]) == components(mount)
                    + components(rel).take(i)
        }),
{
    lemma_valid_names(rel);
    lemma_names_have_parts(rel);
    lemma_parent_components(rel);
    law_hierarchy_goes_top_down(mount, rel);
    let dirs = hierarchy(mount, rel, leading_names(parent_or_empty(rel), 0));
    assert forall|i: int| 0 <= i < dirs.len() implies components(#[trigger] dirs[i]) == components(
        mount,
    ) + components(rel).take(i) by {
        assert(components(rel).drop_last().take(i) =~= components(rel).take(i));
    }
}

/// A cgroup that is there is used as it is. One that is not is made by the
/// helper for a run with privileges that lacks them, and else by the run.
pub proof fn law_who_makes_a_cgroup(exists: bool, use_priv: bool, is_root: bool)
    ensures
        ensure_of(exists, use_priv, is_root) == Ensure::Ready <==> exists,
        ensure_of(exists, use_priv, is_root) == Ensure::Escalate <==> !exists && use_priv
            && !is_root,
        ensure_of(exists, use_priv, is_root) == Ensure::Create <==> !exists && (!use_priv
            || is_root),
{
}

/// The controllers that a run needs are switched on each once: device memory
/// first, then memory, then the processor.
pub proof fn law_needed_in_order(dmem: bool, memory: bool, cpu: bool)
    ensures
        needed(dmem, memory, cpu) == (if dmem {
            seq!["dmem"@]
        } else {
            Seq::empty()
        }) + (if memory {
            seq!["memory"@]
        } else {
            Seq::empty()
        }) + (if cpu {
            seq!["cpu"@]
        } else {
            Seq::empty()
        }),
{
    assert(needed(dmem, memory, cpu) =~= (if dmem {
        seq!["dmem"@]
    } else {
        Seq::empty()
    }) + (if memory {
        seq!["memory"@]
    } else {
        Seq::empty()
    }) + (if cpu {
        seq!["cpu"@]
    } else {
        Seq::empty()
    }));
}

/// A run that could not create its cgroup is told to look to its delegation
/// where one cause is a denial or a cgroup in use, and else what failed.
pub proof fn law_delegation_is_named(dir: Seq<char>, causes: Seq<IoCause>)
    ensures
        (exists|i: int|
            0 <= i < causes.len() && (denied(#[trigger] causes[i]) || busy(causes[i])))
            ==> create_complaint(dir, causes) == "cannot create cgroup "@ + dir
            + ": parent is not delegated to you: Check delegation permissions or run with --priv"@,
        (forall|i: int|
            0 <= i < causes.len() ==> !denied(#[trigger] causes[i]) && !busy(causes[i]))
            ==> create_complaint(dir, causes) == "mkdir "@ + dir + " failed"@,
{
}

} // verus!
