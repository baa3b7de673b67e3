//! Creating cgroups with privileges: in which order they are made and handed
//! over, and how far that reaches.

use vstd::prelude::*;

use crate::cgroup::{full_cgroup_path, full_path};
use crate::control::{is_there, parent_or_empty};
use crate::ensure::lemma_names_have_parts;
use crate::path::{
    components, lemma_parent_components, lies_under, parent, parent_path, parts, Kind,
};
use crate::privilege::{
    checked_path, lemma_names_stay_below, lemma_valid_names, names_below, path_fault, rel_fault,
    PathError,
};

verus! {

/// What is done to a directory.
#[derive(Clone, Copy, Debug, PartialEq, Eq, Structural)]
pub enum Act {
    /// Switch on the controllers that the runner manages. A refusal is ignored.
    Enable,
    /// Create it with all that is above it. A refusal ends the work.
    Create,
    /// Hand it over to its owner. A refusal is ignored.
    Delegate,
}

/// One step of privileged work.
#[derive(Debug)]
pub struct Step {
    pub act: Act,
    pub dir: String,
}

/// What a `Step` says.
pub ghost struct StepText {
    pub act: Act,
    pub dir: Seq<char>,
}

impl View for Step {
    type V = StepText;

    open spec fn view(&self) -> StepText {
        StepText { act: self.act, dir: self.dir@ }
    }
}

impl DeepView for Step {
    type V = StepText;

    open spec fn deep_view(&self) -> StepText {
        self@
    }
}

/// Adds a step.
fn add_step(steps: &mut Vec<Step>, act: Act, dir: &str)
    ensures
        final(steps).deep_view() == old(steps).deep_view().push(StepText { act, dir: dir@ }),
{
    let ghost sofar = steps.deep_view();
    let s = Step { act, dir: dir.to_owned() };
    let ghost t = s@;
    steps.push(s);
    assert(steps.deep_view() =~= sofar.push(t));
}

/// Creates a cgroup, and hands it over where it was not there before.
pub open spec fn made(dir: Seq<char>, existed: bool) -> Seq<StepText> {
    let create = StepText { act: Act::Create, dir };
    if existed {
        seq![create]
    } else {
        seq![create, StepText { act: Act::Delegate, dir }]
    }
}

/// The steps that set up the base cgroup: create it, switch controllers on at
/// the mount, and hand the base over where it was not there before.
pub open spec fn setup_steps(mount: Seq<char>, base: Seq<char>, existed: bool) -> Seq<StepText> {
    let dir = full_path(mount, base);
    let steps = seq![
        StepText { act: Act::Create, dir },
        StepText { act: Act::Enable, dir: mount },
    ];
    if existed {
        steps
    } else {
        steps.push(StepText { act: Act::Delegate, dir })
    }
}

/// Sets up the base cgroup. `existed` says whether it is there already.
pub fn privileged_setup(mount: &str, base: &str, existed: bool) -> (r: Result<
    Vec<Step>,
    PathError,
>)
    ensures
        match r {
            Ok(v) => path_fault(mount@, base@) is None && v.deep_view() == setup_steps(
                mount@,
                base@,
                existed,
            ),
            Err(e) => path_fault(mount@, base@) == Some(e),
        },
{
    match checked_path(mount, base) {
        Err(e) => Err(e),
        Ok(dir) => {
            let mut steps: Vec<Step> = Vec::new();
            assert(steps.deep_view() =~= Seq::empty());
            add_step(&mut steps, Act::Create, dir.as_str());
            add_step(&mut steps, Act::Enable, mount);
            if !existed {
                add_step(&mut steps, Act::Delegate, dir.as_str());
            }
            assert(steps.deep_view() =~= setup_steps(mount@, base@, existed));
            Ok(steps)
        },
    }
}

/// The cgroup `rel` and those above it, from the bottom up.
pub open spec fn lineage_of(rel: Seq<char>) -> Seq<Seq<char>>
    decreases rel.len(),
{
    proof {
        if parent(rel) is Some {
            lemma_parent_components(rel);
        }
    }
    let above = parent_or_empty(rel);
    if above.len() == 0 || rel.len() == 0 {
        seq![rel]
    } else {
        seq![rel] + lineage_of(above)
    }
}

/// The cgroup `rel` and those above it, from the bottom up.
pub fn lineage(rel: &str) -> (r: Vec<String>)
    ensures
        r.deep_view() == lineage_of(rel@),
{
    let mut out: Vec<String> = Vec::new();
    let mut cur = rel;
    assert(out.deep_view() + lineage_of(cur@) =~= lineage_of(rel@));
    loop
        invariant
            out.deep_view() + lineage_of(cur@) == lineage_of(rel@),
        decreases cur@.len(),
    {
        let ghost sofar = out.deep_view();
        out.push(cur.to_owned());
        assert(out.deep_view() =~= sofar.push(cur@));
        match parent_path(cur) {
            Some(above) if !above.is_empty() => {
                proof {
                    lemma_parent_components(cur@);
                    assert(out.deep_view() + lineage_of(above@) =~= sofar + lineage_of(cur@));
                }
                cur = above;
            },
            _ => {
                assert(out.deep_view() =~= sofar + lineage_of(cur@));
                return out;
            },
        }
    }
}

/// Why the work stops: which cgroup of a lineage is at fault, and how.
#[derive(Clone, Copy, Debug, PartialEq, Eq, Structural)]
pub struct Stop {
    pub at: usize,
    pub error: PathError,
}

/// What creating a cgroup comes down to: steps in order, and what stops the
/// work after them.
#[derive(Debug)]
pub struct Plan {
    pub steps: Vec<Step>,
    pub stop: Option<Stop>,
}

/// What a `Plan` says.
pub ghost struct PlanText {
    pub steps: Seq<StepText>,
    pub stop: Option<Stop>,
}

impl View for Plan {
    type V = PlanText;

    open spec fn view(&self) -> PlanText {
        PlanText { steps: self.steps.deep_view(), stop: self.stop }
    }
}

/// The steps that create the `k`th cgroup of a lineage: switch controllers on
/// at the mount, create the cgroup above it where it is not there, switch
/// controllers on there, and create the cgroup itself.
pub open spec fn create_plan(
    mount: Seq<char>,
    line: Seq<Seq<char>>,
    exists: Seq<bool>,
    k: int,
) -> PlanText
    decreases line.len() - k,
{
    let head = seq![StepText { act: Act::Enable, dir: mount }];
    let own = made(full_path(mount, line[k]), is_there(exists, k));
    match path_fault(mount, line[k]) {
        Some(error) => PlanText { steps: Seq::empty(), stop: Some(Stop { at: k as usize, error }) },
        None => if k + 1 >= line.len() {
            PlanText { steps: head + own, stop: None }
        } else {
            let first = if is_there(exists, k + 1) {
                PlanText { steps: Seq::empty(), stop: None }
            } else {
                create_plan(mount, line, exists, k + 1)
            };
            if first.stop is Some {
                PlanText { steps: head + first.steps, stop: first.stop }
            } else {
                let enable = StepText { act: Act::Enable, dir: full_path(mount, line[k + 1]) };
                PlanText { steps: (head + first.steps).push(enable) + own, stop: None }
            }
        },
    }
}

/// Plans the `k`th cgroup of a lineage, adding to the steps there are.
fn plan_create(
    mount: &str,
    line: &Vec<String>,
    exists: &[bool],
    k: usize,
    steps: &mut Vec<Step>,
) -> (stop: Option<Stop>)
    requires
        k < line@.len(),
    ensures
        ({
            let p = create_plan(mount@, line.deep_view(), exists@, k as int);
            &&& stop == p.stop
            &&& final(steps).deep_view() == old(steps).deep_view() + p.steps
        }),
    decreases line@.len() - k,
{
    let ghost plan = create_plan(mount@, line.deep_view(), exists@, k as int);
    let ghost before = steps.deep_view();
    assert(line.deep_view()[k as int] == line@[k as int]@);
    let dir = match checked_path(mount, line[k].as_str()) {
        Err(error) => {
            assert(steps.deep_view() =~= before + plan.steps);
            return Some(Stop { at: k, error });
        },
        Ok(dir) => dir,
    };
    add_step(steps, Act::Enable, mount);
    let n = line.len();
    if k + 1 < n {
        assert(line.deep_view()[k + 1] == line@[k + 1]@);
        if !(k + 1 < exists.len() && exists[k + 1]) {
            let stop = plan_create(mount, line, exists, k + 1, steps);
            if stop.is_some() {
                assert(steps.deep_view() =~= before + plan.steps);
                return stop;
            }
        }
        add_step(steps, Act::Enable, full_cgroup_path(mount, line[k + 1].as_str()).as_str());
    }
    add_step(steps, Act::Create, dir.as_str());
    if !(k < exists.len() && exists[k]) {
        add_step(steps, Act::Delegate, dir.as_str());
    }
    assert(steps.deep_view() =~= before + plan.steps);
    None
}

/// Creates a cgroup and those above it. `exists` says which of its lineage are
/// there already; what it does not speak of is not.
pub fn privileged_create_cgroup(mount: &str, rel: &str, exists: &[bool]) -> (r: Plan)
    ensures
        r@ == create_plan(mount@, lineage_of(rel@), exists@, 0),
{
    let line = lineage(rel);
    assert(line.deep_view().len() == line@.len());
    let mut steps: Vec<Step> = Vec::new();
    let ghost none = steps.deep_view();
    assert(none =~= Seq::empty());
    let stop = plan_create(mount, &line, exists, 0, &mut steps);
    let ghost plan = create_plan(mount@, lineage_of(rel@), exists@, 0);
    assert(none + plan.steps =~= plan.steps);
    Plan { steps, stop }
}

/// Whether the path after the `i`th of a lineage is the one above it.
pub open spec fn steps_up(line: Seq<Seq<char>>, i: int) -> bool {
    components(line[i]).len() > 0 && components(line[i + 1]) == components(line[i]).drop_last()
}

/// Whether each path of a lineage is made of names and is followed by the path
/// above it.
pub open spec fn is_lineage(line: Seq<Seq<char>>) -> bool {
    &&& forall|j: int| 0 <= j < line.len() ==> names_below(#[trigger] line[j])
    &&& forall|i: int| 0 <= i < line.len() - 1 ==> #[trigger] steps_up(line, i)
}

proof fn lemma_lineage(rel: Seq<char>)
    requires
        names_below(rel),
    ensures
        is_lineage(lineage_of(rel)),
        lineage_of(rel).len() > 0,
        lineage_of(rel)[0] == rel,
    decreases rel.len(),
{
    if parent(rel) is Some {
        lemma_parent_components(rel);
    }
    let above = parent_or_empty(rel);
    if above.len() > 0 {
        assert(parts(above) == parts(rel).drop_last());
        assert forall|i: int| 0 <= i < parts(above).len() implies (#[trigger] parts(
            above,
        )[i]).kind == Kind::Name by {
            assert(parts(rel)[i].kind == Kind::Name);
        }
        assert(above[0] == rel[0]);
        lemma_lineage(above);
        let line = lineage_of(rel);
        assert forall|j: int| 0 <= j < line.len() implies names_below(#[trigger] line[j]) by {
            if j > 0 {
                assert(line[j] == lineage_of(above)[j - 1]);
            }
        }
        assert forall|i: int| 0 <= i < line.len() - 1 implies #[trigger] steps_up(line, i) by {
            assert(line[i + 1] == lineage_of(above)[i]);
            if i > 0 {
                assert(line[i] == lineage_of(above)[i - 1]);
                assert(steps_up(lineage_of(above), i - 1));
            }
        }
    }
}

proof fn lemma_under_transitive(a: Seq<char>, b: Seq<char>, c: Seq<char>)
    requires
        lies_under(a, b),
        lies_under(b, c),
    ensures
        lies_under(a, c),
{
    let n = components(a).len() as int;
    assert(components(c).take(n) =~= components(c).take(components(b).len() as int).take(n));
}

proof fn lemma_under_above(mount: Seq<char>, line: Seq<Seq<char>>, k: int)
    requires
        is_lineage(line),
        0 <= k,
        k + 1 < line.len(),
    ensures
        lies_under(full_path(mount, line[k + 1]), full_path(mount, line[k])),
{
    lemma_names_stay_below(mount, line[k]);
    lemma_names_stay_below(mount, line[k + 1]);
    let low = components(mount) + components(line[k]);
    let high = components(mount) + components(line[k + 1]);
    assert(steps_up(line, k));
    assert(low.take(high.len() as int) =~= high);
}

/// Each step works at or below the mount, and at or above `dir`.
pub open spec fn between(steps: Seq<StepText>, mount: Seq<char>, dir: Seq<char>) -> bool {
    forall|i: int|
        0 <= i < steps.len() ==> lies_under(mount, (#[trigger] steps[i]).dir) && lies_under(
            steps[i].dir,
            dir,
        )
}

/// What is created later lies at or below what is created earlier.
pub open spec fn top_down(steps: Seq<StepText>) -> bool {
    forall|i: int, j: int|
        0 <= i < j < steps.len() && (#[trigger] steps[i]).act == Act::Create && (
        #[trigger] steps[j]).act == Act::Create ==> lies_under(steps[i].dir, steps[j].dir)
}

/// What is handed over is a cgroup of the lineage that was not there.
pub open spec fn hands_over_new(
    steps: Seq<StepText>,
    mount: Seq<char>,
    line: Seq<Seq<char>>,
    exists: Seq<bool>,
) -> bool {
    forall|i: int|
        0 <= i < steps.len() && (#[trigger] steps[i]).act == Act::Delegate ==> exists|j: int|
            0 <= j < line.len() && steps[i].dir == full_path(mount, #[trigger] line[j])
                && !is_there(exists, j)
}

proof fn lemma_under_itself(p: Seq<char>)
    ensures
        lies_under(p, p),
{
    assert(components(p).take(components(p).len() as int) =~= components(p));
}

proof fn lemma_create_plan(
    mount: Seq<char>,
    line: Seq<Seq<char>>,
    exists: Seq<bool>,
    k: int,
)
    requires
        is_lineage(line),
        0 <= k < line.len(),
    ensures
        ({
            let p = create_plan(mount, line, exists, k);
            let dir = full_path(mount, line[k]);
            &&& between(p.steps, mount, dir)
            &&& top_down(p.steps)
            &&& hands_over_new(p.steps, mount, line, exists)
            &&& p.stop is None ==> p.steps.contains(StepText { act: Act::Create, dir })
        }),
    decreases line.len() - k,
{
    let p = create_plan(mount, line, exists, k);
    let dir = full_path(mount, line[k]);
    lemma_names_stay_below(mount, line[k]);
    lemma_under_itself(mount);
    lemma_under_itself(dir);
    let create = StepText { act: Act::Create, dir };
    let n = p.steps.len() as int;
    if path_fault(mount, line[k]) is Some {
    } else if k + 1 >= line.len() {
        assert(p.steps[1] == create);
        assert forall|i: int| 0 <= i < n && (#[trigger] p.steps[i]).act == Act::Delegate implies exists|
            j: int,
        |
            0 <= j < line.len() && p.steps[i].dir == full_path(mount, #[trigger] line[j])
                && !is_there(exists, j) by {
            assert(p.steps[i].dir == full_path(mount, line[k]));
        }
    } else {
        let above = full_path(mount, line[k + 1]);
        lemma_names_stay_below(mount, line[k + 1]);
        lemma_under_above(mount, line, k);
        lemma_create_plan(mount, line, exists, k + 1);
        let first = if is_there(exists, k + 1) {
            PlanText { steps: Seq::empty(), stop: None }
        } else {
            create_plan(mount, line, exists, k + 1)
        };
        let m = first.steps.len() as int;
        assert forall|i: int| 1 <= i < 1 + m implies #[trigger] p.steps[i] == first.steps[i - 1]
            && lies_under(mount, p.steps[i].dir) && lies_under(p.steps[i].dir, dir) by {
            lemma_under_transitive(first.steps[i - 1].dir, above, dir);
        }
        if first.stop is None {
            assert(p.steps[1 + m] == StepText { act: Act::Enable, dir: above });
            assert(p.steps[2 + m] == create);
        }
        assert forall|i: int| 0 <= i < n && (#[trigger] p.steps[i]).act == Act::Delegate implies exists|
            j: int,
        |
            0 <= j < line.len() && p.steps[i].dir == full_path(mount, #[trigger] line[j])
                && !is_there(exists, j) by {
            if i < 1 + m {
                assert(first.steps[i - 1].act == Act::Delegate);
            } else {
                assert(p.steps[i].dir == full_path(mount, line[k]));
            }
        }
    }
}

/// Creating a cgroup works between the mount and that cgroup alone.
pub proof fn law_creation_stays_below(mount: Seq<char>, rel: Seq<char>, exists: Seq<bool>)
    requires
        rel_fault(rel) is None,
    ensures
        between(
            create_plan(mount, lineage_of(rel), exists, 0).steps,
            mount,
            full_path(mount, rel),
        ),
{
    lemma_valid_names(rel);
    lemma_lineage(rel);
    lemma_create_plan(mount, lineage_of(rel), exists, 0);
}

/// Cgroups are created from the top down, the one asked for among them where
/// nothing stops the work.
pub proof fn law_creation_goes_top_down(mount: Seq<char>, rel: Seq<char>, exists: Seq<bool>)
    requires
        rel_fault(rel) is None,
    ensures
        ({
            let p = create_plan(mount, lineage_of(rel), exists, 0);
            let own = StepText { act: Act::Create, dir: full_path(mount, rel) };
            top_down(p.steps) && (p.stop is None ==> p.steps.contains(own))
        }),
{
    lemma_valid_names(rel);
    lemma_lineage(rel);
    lemma_create_plan(mount, lineage_of(rel), exists, 0);
}

/// A cgroup that was there before is never handed over to anyone.
pub proof fn law_only_new_cgroups_are_handed_over(
    mount: Seq<char>,
    rel: Seq<char>,
    exists: Seq<bool>,
)
    requires
        rel_fault(rel) is None,
    ensures
        hands_over_new(
            create_plan(mount, lineage_of(rel), exists, 0).steps,
            mount,
            lineage_of(rel),
            exists,
        ),
{
    lemma_valid_names(rel);
    lemma_lineage(rel);
    lemma_create_plan(mount, lineage_of(rel), exists, 0);
}

/// Whether each cgroup of the lineage that is created without having been there
/// is handed over in the next step.
pub open spec fn hands_over_made(
    steps: Seq<StepText>,
    mount: Seq<char>,
    line: Seq<Seq<char>>,
    exists: Seq<bool>,
) -> bool {
    forall|i: int|
        0 <= i < steps.len() && (#[trigger] steps[i]).act == Act::Create ==> exists|j: int|
            {
                &&& 0 <= j < line.len()
                &&& steps[i].dir == full_path(mount, #[trigger] line[j])
                &&& is_there(exists, j) || (i + 1 < steps.len() && steps[i + 1] == (StepText {
                    act: Act::Delegate,
                    dir: steps[i].dir,
                }))
            }
}

#[verifier::spinoff_prover]
#[verifier::rlimit(40)]
proof fn lemma_hands_over_made(
    mount: Seq<char>,
    line: Seq<Seq<char>>,
    exists: Seq<bool>,
    k: int,
)
    requires
        0 <= k < line.len(),
    ensures
        hands_over_made(create_plan(mount, line, exists, k).steps, mount, line, exists),
    decreases line.len() - k,
{
    let p = create_plan(mount, line, exists, k);
    let own = made(full_path(mount, line[k]), is_there(exists, k));
    if path_fault(mount, line[k]) is None {
        let first = if k + 1 >= line.len() || is_there(exists, k + 1) {
            PlanText { steps: Seq::empty(), stop: None }
        } else {
            lemma_hands_over_made(mount, line, exists, k + 1);
            create_plan(mount, line, exists, k + 1)
        };
        let m = first.steps.len() as int;
        let at = if k + 1 >= line.len() {
            1
        } else {
            2 + m
        };
        assert forall|i: int| 0 <= i < p.steps.len() && (#[trigger] p.steps[i]).act
            == Act::Create implies exists|j: int|
            {
                &&& 0 <= j < line.len()
                &&& p.steps[i].dir == full_path(mount, #[trigger] line[j])
                &&& is_there(exists, j) || (i + 1 < p.steps.len() && p.steps[i + 1] == (StepText {
                    act: Act::Delegate,
                    dir: p.steps[i].dir,
                }))
            } by {
            if 1 <= i < 1 + m {
                assert(p.steps[i] == first.steps[i - 1]);
                if i < m {
                    assert(p.steps[i + 1] == first.steps[i]);
                }
            } else {
                assert(p.steps[i] == own[i - at]);
                if !is_there(exists, k) {
                    assert(p.steps[i + 1] == own[1]);
                }
                assert(p.steps[i].dir == full_path(mount, line[k]));
            }
        }
    }
}

/// Each cgroup that is made anew is handed over right away.
pub proof fn law_new_cgroups_are_handed_over(
    mount: Seq<char>,
    rel: Seq<char>,
    exists: Seq<bool>,
)
    ensures
        hands_over_made(
            create_plan(mount, lineage_of(rel), exists, 0).steps,
            mount,
            lineage_of(rel),
            exists,
        ),
{
    assert(lineage_of(rel).len() > 0);
    lemma_hands_over_made(mount, lineage_of(rel), exists, 0);
}

/// Whether none of the cgroups after the `k`th is there, up to the `j`th.
pub open spec fn none_there(exists: Seq<bool>, k: int, j: int) -> bool {
    forall|l: int| k < l <= j ==> !(l < exists.len() && #[trigger] exists[l])
}

/// Whether the `i`th step creates the `k`th cgroup of a lineage as it should:
/// right after controllers were switched on above it, and with the handing over
/// right after it where it was not there.
#[verifier::opaque]
pub open spec fn creates(
    steps: Seq<StepText>,
    i: int,
    mount: Seq<char>,
    line: Seq<Seq<char>>,
    exists: Seq<bool>,
    k: int,
) -> bool {
    let dir = full_path(mount, line[k]);
    let above = if k + 1 < line.len() {
        full_path(mount, line[k + 1])
    } else {
        mount
    };
    &&& 0 < i < steps.len()
    &&& steps[i] == (StepText { act: Act::Create, dir })
    &&& steps[i - 1] == (StepText { act: Act::Enable, dir: above })
    &&& (k < exists.len() && exists[k]) || (i + 1 < steps.len() && steps[i + 1] == (StepText {
        act: Act::Delegate,
        dir,
    }))
}

/// Whether steps create the cgroups of a lineage from the `k`th up to the first
/// that is there, and no other.
pub open spec fn creates_missing(
    steps: Seq<StepText>,
    mount: Seq<char>,
    line: Seq<Seq<char>>,
    exists: Seq<bool>,
    k: int,
) -> bool {
    &&& forall|j: int|
        k <= j < line.len() && #[trigger] none_there(exists, k, j) ==> exists|i: int| #[trigger]
            creates(steps, i, mount, line, exists, j)
    &&& forall|i: int|
        0 <= i < steps.len() && (#[trigger] steps[i]).act == Act::Create ==> exists|j: int|
            {
                &&& k <= j < line.len()
                &&& #[trigger] creates(steps, i, mount, line, exists, j)
                &&& none_there(exists, k, j)
            }
}

proof fn lemma_creates_shifted(
    head: StepText,
    some: Seq<StepText>,
    tail: Seq<StepText>,
    i: int,
    mount: Seq<char>,
    line: Seq<Seq<char>>,
    exists: Seq<bool>,
    j: int,
)
    requires
        creates(some, i, mount, line, exists, j),
    ensures
        creates(seq![head] + some + tail, i + 1, mount, line, exists, j),
{
    reveal(creates);
    let all = seq![head] + some + tail;
    assert(all[i + 1] == some[i]);
    assert(all[i] == some[i - 1]);
    if i + 1 < some.len() {
        assert(all[i + 2] == some[i + 1]);
    }
}

proof fn lemma_creates_own(
    before: Seq<StepText>,
    mount: Seq<char>,
    line: Seq<Seq<char>>,
    exists: Seq<bool>,
    k: int,
)
    requires
        before.len() > 0,
        before.last() == (StepText {
            act: Act::Enable,
            dir: if k + 1 < line.len() {
                full_path(mount, line[k + 1])
            } else {
                mount
            },
        }),
        0 <= k,
    ensures
        ({
            let own = made(full_path(mount, line[k]), is_there(exists, k));
            &&& creates(before + own, before.len() as int, mount, line, exists, k)
            &&& forall|i: int|
                before.len() <= i < (before + own).len() && (#[trigger] (before + own)[i]).act
                    == Act::Create ==> i == before.len()
        }),
{
    reveal(creates);
    let own = made(full_path(mount, line[k]), is_there(exists, k));
    let all = before + own;
    let n = before.len() as int;
    assert(all[n] == own[0]);
    assert(all[n - 1] == before.last());
    if !is_there(exists, k) {
        assert(all[n + 1] == own[1]);
    }
}

#[verifier::spinoff_prover]
proof fn lemma_creates_missing(
    mount: Seq<char>,
    line: Seq<Seq<char>>,
    exists: Seq<bool>,
    k: int,
)
    requires
        0 <= k < line.len(),
        forall|j: int| 0 <= j < line.len() ==> path_fault(mount, #[trigger] line[j]) is None,
    ensures
        ({
            let p = create_plan(mount, line, exists, k);
            &&& p.stop is None
            &&& p.steps.len() > 0
            &&& p.steps[0] == (StepText { act: Act::Enable, dir: mount })
            &&& creates_missing(p.steps, mount, line, exists, k)
        }),
    decreases line.len() - k,
{
    let p = create_plan(mount, line, exists, k);
    let own = made(full_path(mount, line[k]), is_there(exists, k));
    let head = StepText { act: Act::Enable, dir: mount };
    assert(path_fault(mount, line[k]) is None);
    let first = if k + 1 >= line.len() || is_there(exists, k + 1) {
        PlanText { steps: Seq::empty(), stop: None }
    } else {
        lemma_creates_missing(mount, line, exists, k + 1);
        create_plan(mount, line, exists, k + 1)
    };
    let m = first.steps.len() as int;
    let before = if k + 1 >= line.len() {
        seq![head]
    } else {
        (seq![head] + first.steps).push(
            StepText { act: Act::Enable, dir: full_path(mount, line[k + 1]) },
        )
    };
    let n = before.len() as int;
    assert(p.steps =~= before + own);
    assert(p.steps[0] == head);
    lemma_creates_own(before, mount, line, exists, k);
    let tail = p.steps.skip(1 + m);
    assert(p.steps =~= seq![head] + first.steps + tail);
    assert forall|j: int|
        k <= j < line.len() && #[trigger] none_there(exists, k, j) implies exists|i: int| #[trigger]
        creates(p.steps, i, mount, line, exists, j) by {
        if j > k {
            assert(!is_there(exists, k + 1)) by {
                if k + 1 < exists.len() {
                    assert(!exists[k + 1]);
                }
            }
            assert(none_there(exists, k + 1, j));
            let i = choose|i: int| #[trigger] creates(first.steps, i, mount, line, exists, j);
            lemma_creates_shifted(head, first.steps, tail, i, mount, line, exists, j);
            assert(creates(p.steps, i + 1, mount, line, exists, j));
        } else {
            assert(creates(p.steps, n, mount, line, exists, j));
        }
    }
    assert forall|i: int| 0 <= i < p.steps.len() && (#[trigger] p.steps[i]).act
        == Act::Create implies exists|j: int|
        {
            &&& k <= j < line.len()
            &&& #[trigger] creates(p.steps, i, mount, line, exists, j)
            &&& none_there(exists, k, j)
        } by {
        if 1 <= i < 1 + m {
            assert(p.steps[i] == first.steps[i - 1]);
            let j = choose|j: int|
                {
                    &&& k + 1 <= j < line.len()
                    &&& #[trigger] creates(first.steps, i - 1, mount, line, exists, j)
                    &&& none_there(exists, k + 1, j)
                };
            lemma_creates_shifted(head, first.steps, tail, i - 1, mount, line, exists, j);
            assert(none_there(exists, k, j)) by {
                assert forall|l: int| k < l <= j implies !(l < exists.len()
                    && #[trigger] exists[l]) by {
                    assert(!is_there(exists, k + 1));
                }
            }
        } else {
            assert(i == n);
            assert(none_there(exists, k, k));
        }
    }
}

/// Where no cgroup of the lineage has a fault nothing stops the work: controllers
/// are switched on at the mount first, and the cgroup asked for is created, with
/// each above it up to the first that is there, and no other. Each is created
/// right after controllers were switched on in the one above it, and handed over
/// right after that where it is new.
pub proof fn law_missing_cgroups_are_created(mount: Seq<char>, rel: Seq<char>, exists: Seq<bool>)
    requires
        forall|j: int|
            0 <= j < lineage_of(rel).len() ==> path_fault(
                mount,
                #[trigger] lineage_of(rel)[j],
            ) is None,
    ensures
        ({
            let p = create_plan(mount, lineage_of(rel), exists, 0);
            &&& p.stop is None
            &&& p.steps[0] == (StepText { act: Act::Enable, dir: mount })
            &&& creates_missing(p.steps, mount, lineage_of(rel), exists, 0)
        }),
{
    assert(lineage_of(rel).len() > 0);
    lemma_creates_missing(mount, lineage_of(rel), exists, 0);
}

/// The lineage of a path is the path, the path above it, and so on, up to the
/// first component: one for each component.
pub proof fn law_lineage(rel: Seq<char>)
    requires
        rel_fault(rel) is None,
    ensures
        lineage_of(rel).len() == components(rel).len(),
        lineage_of(rel)[0] == rel,
        forall|k: int|
            0 <= k < lineage_of(rel).len() ==> components(#[trigger] lineage_of(rel)[k])
                == components(rel).take(components(rel).len() - k),
{
    lemma_valid_names(rel);
    lemma_lineage_components(rel);
}

proof fn lemma_lineage_components(rel: Seq<char>)
    requires
        names_below(rel),
    ensures
        lineage_of(rel).len() == components(rel).len(),
        lineage_of(rel)[0] == rel,
        forall|k: int|
            0 <= k < lineage_of(rel).len() ==> components(#[trigger] lineage_of(rel)[k])
                == components(rel).take(components(rel).len() - k),
    decreases rel.len(),
{
    let all = components(rel);
    lemma_names_have_parts(rel);
    lemma_parent_components(rel);
    let above = parent_or_empty(rel);
    let line = lineage_of(rel);
    assert(all.take(all.len() as int) =~= all);
    if above.len() > 0 {
        assert forall|i: int| 0 <= i < parts(above).len() implies (#[trigger] parts(
            above,
        )[i]).kind == Kind::Name by {
            assert(parts(rel)[i].kind == Kind::Name);
        }
        assert(above[0] == rel[0]);
        lemma_lineage_components(above);
        assert forall|k: int| 0 <= k < line.len() implies components(#[trigger] line[k])
            == all.take(all.len() - k) by {
            if k > 0 {
                assert(line[k] == lineage_of(above)[k - 1]);
                assert(all.drop_last().take(all.len() - k) =~= all.take(all.len() - k));
            }
        }
    } else {
        assert(parts(above) =~= Seq::empty());
        assert(parts(rel).len() == 1);
    }
}

/// Setting up a base creates it, switches controllers on at the mount, and then
/// hands the base over where it was not there before, and does nothing else.
pub proof fn law_setup(mount: Seq<char>, base: Seq<char>)
    ensures
        setup_steps(mount, base, true) == seq![
            StepText { act: Act::Create, dir: full_path(mount, base) },
            StepText { act: Act::Enable, dir: mount },
        ],
        setup_steps(mount, base, false) == seq![
            StepText { act: Act::Create, dir: full_path(mount, base) },
            StepText { act: Act::Enable, dir: mount },
            StepText { act: Act::Delegate, dir: full_path(mount, base) },
        ],
{
    assert(setup_steps(mount, base, false) =~= seq![
        StepText { act: Act::Create, dir: full_path(mount, base) },
        StepText { act: Act::Enable, dir: mount },
        StepText { act: Act::Delegate, dir: full_path(mount, base) },
    ]);
}

} // verus!
