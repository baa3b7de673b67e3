//! The limits that a run asks for: what is written to its cgroup, in which
//! order, and where that ends.

use vstd::prelude::*;

use crate::control::{
    apply_dmem_limits, cpu_weight, cpu_weight_nice, dmem_settings, memory_limit, set_cpu_weight,
    set_cpu_weight_nice, set_memory_high, set_memory_low, set_memory_max, set_memory_min, Setting,
    SettingText,
};
use crate::dmem::{expanded, Capacity, ExpandError};
use crate::message::{expand_complaint, expand_message, size_complaint, size_message};
use crate::number::{decimal, show, show_signed, signed_decimal};
use crate::run::RunArgs;
use crate::size::{size, SizeError};

verus! {

/// Why a limit cannot be set.
#[derive(Clone, Copy, Debug, PartialEq, Eq, Structural)]
pub enum LimitError {
    /// The protections of device memory cannot be resolved.
    VramLow(ExpandError),
    /// The limits on device memory cannot be resolved.
    VramMax(ExpandError),
    /// The hard limit on system memory is no size.
    MemoryMax(SizeError),
    /// The throttling boundary of system memory is no size.
    MemoryHigh(SizeError),
    /// The protection of system memory is no size.
    MemoryLow(SizeError),
    /// The protection of system memory at all costs is no size.
    MemoryMin(SizeError),
    /// The weight is out of its range.
    Weight,
    /// The nice value is out of its range.
    Nice,
}

/// One step of setting limits.
#[derive(Debug)]
pub enum LimitStep {
    /// Write to a file of the cgroup. A refusal ends the work.
    Write(Setting),
    /// Tell the user what has been set.
    Say(String),
}

/// What a `LimitStep` says.
pub ghost enum LimitText {
    Write(SettingText),
    Say(Seq<char>),
}

impl View for LimitStep {
    type V = LimitText;

    open spec fn view(&self) -> LimitText {
        match self {
            LimitStep::Write(s) => LimitText::Write(s@),
            LimitStep::Say(t) => LimitText::Say(t@),
        }
    }
}

impl DeepView for LimitStep {
    type V = LimitText;

    open spec fn deep_view(&self) -> LimitText {
        self@
    }
}

/// The steps that set limits, and what stops the work after them.
#[derive(Debug)]
pub struct LimitPlan {
    pub steps: Vec<LimitStep>,
    pub stop: Option<LimitError>,
}

/// What a `LimitPlan` says.
pub ghost struct Limits {
    pub steps: Seq<LimitText>,
    pub stop: Option<LimitError>,
}

impl View for LimitPlan {
    type V = Limits;

    open spec fn view(&self) -> Limits {
        Limits { steps: self.steps.deep_view(), stop: self.stop }
    }
}

/// Writes, in order.
pub open spec fn writes(ws: Seq<SettingText>) -> Seq<LimitText> {
    Seq::new(ws.len(), |i: int| LimitText::Write(ws[i]))
}

/// The plan with one more limit: its writes and a word on them, or what stops
/// the work. `None` stands for a limit that nobody asked for.
pub open spec fn and_limit(
    plan: Limits,
    limit: Option<Result<Seq<SettingText>, LimitError>>,
    say: Seq<char>,
) -> Limits {
    if plan.stop is Some {
        plan
    } else {
        match limit {
            None => plan,
            Some(Err(e)) => Limits { steps: plan.steps, stop: Some(e) },
            Some(Ok(ws)) => Limits {
                steps: (plan.steps + writes(ws)).push(LimitText::Say(say)),
                stop: None,
            },
        }
    }
}

/// Limits on device memory, where there are any.
pub open spec fn vram(specs: Seq<Seq<char>>, file: Seq<char>, cap: Seq<(Seq<char>, u64)>) -> Option<
    Result<Seq<SettingText>, ExpandError>,
> {
    if specs.len() == 0 {
        None
    } else {
        match expanded(specs, cap) {
            Ok(pairs) => Some(Ok(dmem_settings(file, pairs))),
            Err(e) => Some(Err(e)),
        }
    }
}

/// A limit on system memory, where there is one.
pub open spec fn memory(raw: Option<String>, file: Seq<char>) -> Option<
    Result<Seq<SettingText>, SizeError>,
> {
    match raw {
        None => None,
        Some(s) => match memory_limit(file, s@) {
            Ok(w) => Some(Ok(seq![w])),
            Err(e) => Some(Err(e)),
        },
    }
}

/// What is said of a limit on device memory.
pub open spec fn vram_words(file: Seq<char>, cgroup: Seq<char>) -> Seq<char> {
    file + " configured for "@ + cgroup
}

/// What is said of any other limit.
pub open spec fn limit_words(file: Seq<char>, value: Seq<char>, cgroup: Seq<char>) -> Seq<char> {
    file + "="@ + value + " set for "@ + cgroup
}

/// The text of an optional string, or nothing.
pub open spec fn text_or_empty(s: Option<String>) -> Seq<char> {
    match s {
        Some(t) => t@,
        None => Seq::empty(),
    }
}

/// The limits of a run on device memory.
pub open spec fn vram_limits(
    plan: Limits,
    cgroup: Seq<char>,
    r: RunArgs,
    cap: Seq<(Seq<char>, u64)>,
) -> Limits {
    let low = match vram(r.vram_low.deep_view(), "dmem.low"@, cap) {
        None => None,
        Some(Ok(ws)) => Some(Ok(ws)),
        Some(Err(e)) => Some(Err(LimitError::VramLow(e))),
    };
    let max = match vram(r.vram_max.deep_view(), "dmem.max"@, cap) {
        None => None,
        Some(Ok(ws)) => Some(Ok(ws)),
        Some(Err(e)) => Some(Err(LimitError::VramMax(e))),
    };
    and_limit(
        and_limit(plan, low, vram_words("dmem.low"@, cgroup)),
        max,
        vram_words("dmem.max"@, cgroup),
    )
}

/// The limits of a run on system memory.
pub open spec fn memory_limits(plan: Limits, cgroup: Seq<char>, r: RunArgs) -> Limits {
    let max = match memory(r.memory_max, "memory.max"@) {
        None => None,
        Some(Ok(ws)) => Some(Ok(ws)),
        Some(Err(e)) => Some(Err(LimitError::MemoryMax(e))),
    };
    let high = match memory(r.memory_high, "memory.high"@) {
        None => None,
        Some(Ok(ws)) => Some(Ok(ws)),
        Some(Err(e)) => Some(Err(LimitError::MemoryHigh(e))),
    };
    let low = match memory(r.memory_low, "memory.low"@) {
        None => None,
        Some(Ok(ws)) => Some(Ok(ws)),
        Some(Err(e)) => Some(Err(LimitError::MemoryLow(e))),
    };
    let min = match memory(r.memory_min, "memory.min"@) {
        None => None,
        Some(Ok(ws)) => Some(Ok(ws)),
        Some(Err(e)) => Some(Err(LimitError::MemoryMin(e))),
    };
    let one = and_limit(
        plan,
        max,
        limit_words("memory.max"@, text_or_empty(r.memory_max), cgroup),
    );
    let two = and_limit(
        one,
        high,
        limit_words("memory.high"@, text_or_empty(r.memory_high), cgroup),
    );
    let three = and_limit(
        two,
        low,
        limit_words("memory.low"@, text_or_empty(r.memory_low), cgroup),
    );
    and_limit(three, min, limit_words("memory.min"@, text_or_empty(r.memory_min), cgroup))
}

/// The share of the processor that a run asks for.
pub open spec fn cpu_limits(plan: Limits, cgroup: Seq<char>, r: RunArgs) -> Limits {
    let weight = match r.cpu_weight {
        None => None,
        Some(w) => match cpu_weight(w) {
            Ok(s) => Some(Ok(seq![s])),
            Err(_) => Some(Err(LimitError::Weight)),
        },
    };
    let nice = match r.cpu_weight_nice {
        None => None,
        Some(n) => match cpu_weight_nice(n) {
            Ok(s) => Some(Ok(seq![s])),
            Err(_) => Some(Err(LimitError::Nice)),
        },
    };
    let shown = match r.cpu_weight {
        Some(w) => decimal(w as nat),
        None => Seq::empty(),
    };
    let shown_nice = match r.cpu_weight_nice {
        Some(n) => signed_decimal(n as int),
        None => Seq::empty(),
    };
    and_limit(
        and_limit(plan, weight, limit_words("cpu.weight"@, shown, cgroup)),
        nice,
        limit_words("cpu.weight.nice"@, shown_nice, cgroup),
    )
}

/// All limits that a run asks for: on device memory, on system memory, and the
/// share of the processor. The first that cannot be set ends the work.
pub open spec fn limits_of(cgroup: Seq<char>, r: RunArgs, cap: Seq<(Seq<char>, u64)>) -> Limits {
    let none = Limits { steps: Seq::empty(), stop: None };
    cpu_limits(memory_limits(vram_limits(none, cgroup, r, cap), cgroup, r), cgroup, r)
}

/// Adds the writes of one limit and a word on them, or what stops the work.
fn take_in(plan: &mut LimitPlan, limit: Result<Vec<Setting>, LimitError>, say: String)
    ensures
        final(plan)@ == and_limit(
            old(plan)@,
            match limit {
                Ok(ws) => Some(Ok(ws.deep_view())),
                Err(e) => Some(Err(e)),
            },
            say@,
        ),
{
    if plan.stop.is_some() {
        return;
    }
    match limit {
        Err(e) => {
            plan.stop = Some(e);
        },
        Ok(ws) => {
            let ghost before = plan.steps.deep_view();
            let ghost all = writes(ws.deep_view());
            let ghost word = say@;
            let mut i: usize = 0;
            assert(plan.steps.deep_view() =~= before + all.take(0));
            while i < ws.len()
                invariant
                    i <= ws.len() == all.len(),
                    all == writes(ws.deep_view()),
                    plan.stop is None,
                    plan.steps.deep_view() == before + all.take(i as int),
                decreases ws.len() - i,
            {
                let ghost sofar = plan.steps.deep_view();
                let copy = Setting { file: ws[i].file.clone(), body: ws[i].body.clone() };
                let ghost t = copy@;
                assert(t == ws.deep_view()[i as int]);
                plan.steps.push(LimitStep::Write(copy));
                assert(plan.steps.deep_view() =~= sofar.push(LimitText::Write(t)));
                assert(plan.steps.deep_view() =~= before + all.take(i + 1));
                i = i + 1;
            }
            assert(all.take(i as int) =~= all);
            let ghost sofar = plan.steps.deep_view();
            plan.steps.push(LimitStep::Say(say));
            assert(plan.steps.deep_view() =~= sofar.push(LimitText::Say(word)));
        },
    }
}

/// One write as a list.
fn one(w: Setting) -> (r: Vec<Setting>)
    ensures
        r.deep_view() == seq![w@],
{
    let ghost t = w@;
    let mut r: Vec<Setting> = Vec::new();
    r.push(w);
    assert(r.deep_view() =~= seq![t]);
    r
}

/// What is said of a limit on device memory.
fn say_vram(file: &str, cgroup: &str) -> (r: String)
    ensures
        r@ == vram_words(file@, cgroup@),
{
    file.to_owned().concat(" configured for ").concat(cgroup)
}

/// What is said of any other limit.
fn say_limit(file: &str, value: &str, cgroup: &str) -> (r: String)
    ensures
        r@ == limit_words(file@, value@, cgroup@),
{
    file.to_owned().concat("=").concat(value).concat(" set for ").concat(cgroup)
}

/// Adds the limits of a run on device memory.
fn plan_vram(plan: &mut LimitPlan, cgroup: &str, r: &RunArgs, cap: &Capacity)
    ensures
        final(plan)@ == vram_limits(old(plan)@, cgroup@, *r, cap@),
{
    assert(r.vram_low.deep_view().len() == r.vram_low@.len());
    assert(r.vram_max.deep_view().len() == r.vram_max@.len());
    if r.vram_low.len() > 0 {
        let got = match apply_dmem_limits("dmem.low", r.vram_low.as_slice(), cap) {
            Ok(ws) => Ok(ws),
            Err(e) => Err(LimitError::VramLow(e)),
        };
        take_in(plan, got, say_vram("dmem.low", cgroup));
    }
    if r.vram_max.len() > 0 {
        let got = match apply_dmem_limits("dmem.max", r.vram_max.as_slice(), cap) {
            Ok(ws) => Ok(ws),
            Err(e) => Err(LimitError::VramMax(e)),
        };
        take_in(plan, got, say_vram("dmem.max", cgroup));
    }
}

/// Adds the limits of a run on system memory.
fn plan_memory(plan: &mut LimitPlan, cgroup: &str, r: &RunArgs)
    ensures
        final(plan)@ == memory_limits(old(plan)@, cgroup@, *r),
{
    if let Some(v) = &r.memory_max {
        let got = match set_memory_max(v.as_str()) {
            Ok(w) => Ok(one(w)),
            Err(e) => Err(LimitError::MemoryMax(e)),
        };
        take_in(plan, got, say_limit("memory.max", v.as_str(), cgroup));
    }
    if let Some(v) = &r.memory_high {
        let got = match set_memory_high(v.as_str()) {
            Ok(w) => Ok(one(w)),
            Err(e) => Err(LimitError::MemoryHigh(e)),
        };
        take_in(plan, got, say_limit("memory.high", v.as_str(), cgroup));
    }
    if let Some(v) = &r.memory_low {
        let got = match set_memory_low(v.as_str()) {
            Ok(w) => Ok(one(w)),
            Err(e) => Err(LimitError::MemoryLow(e)),
        };
        take_in(plan, got, say_limit("memory.low", v.as_str(), cgroup));
    }
    if let Some(v) = &r.memory_min {
        let got = match set_memory_min(v.as_str()) {
            Ok(w) => Ok(one(w)),
            Err(e) => Err(LimitError::MemoryMin(e)),
        };
        take_in(plan, got, say_limit("memory.min", v.as_str(), cgroup));
    }
}

/// Adds the share of the processor that a run asks for.
fn plan_cpu(plan: &mut LimitPlan, cgroup: &str, r: &RunArgs)
    ensures
        final(plan)@ == cpu_limits(old(plan)@, cgroup@, *r),
{
    if let Some(w) = r.cpu_weight {
        let got = match set_cpu_weight(w) {
            Ok(s) => Ok(one(s)),
            Err(_) => Err(LimitError::Weight),
        };
        take_in(plan, got, say_limit("cpu.weight", show(w as u64).as_str(), cgroup));
    }
    if let Some(n) = r.cpu_weight_nice {
        let got = match set_cpu_weight_nice(n) {
            Ok(s) => Ok(one(s)),
            Err(_) => Err(LimitError::Nice),
        };
        take_in(plan, got, say_limit("cpu.weight.nice", show_signed(n).as_str(), cgroup));
    }
}

/// Plans the limits that a run asks for on the cgroup at `cgroup`.
pub fn apply_limits(cgroup: &str, r: &RunArgs, cap: &Capacity) -> (plan: LimitPlan)
    ensures
        plan@ == limits_of(cgroup@, *r, cap@),
{
    let mut plan = LimitPlan { steps: Vec::new(), stop: None };
    assert(plan.steps.deep_view() =~= Seq::empty());
    plan_vram(&mut plan, cgroup, r, cap);
    plan_memory(&mut plan, cgroup, r);
    plan_cpu(&mut plan, cgroup, r);
    plan
}

/// Whether a run asks for the limit that a file of its cgroup holds.
pub open spec fn asks_for(r: RunArgs, file: Seq<char>) -> bool {
    ||| file == "dmem.low"@ && r.vram_low@.len() > 0
    ||| file == "dmem.max"@ && r.vram_max@.len() > 0
    ||| file == "memory.max"@ && r.memory_max is Some
    ||| file == "memory.high"@ && r.memory_high is Some
    ||| file == "memory.low"@ && r.memory_low is Some
    ||| file == "memory.min"@ && r.memory_min is Some
    ||| file == "cpu.weight"@ && r.cpu_weight is Some
    ||| file == "cpu.weight.nice"@ && r.cpu_weight_nice is Some
}

/// Whether every write goes to a file whose limit the run asks for.
pub open spec fn only_asked(r: RunArgs, steps: Seq<LimitText>) -> bool {
    forall|i: int|
        0 <= i < steps.len() ==> ((#[trigger] steps[i]) matches LimitText::Write(s) ==> asks_for(
            r,
            s.file,
        ))
}

proof fn lemma_only_asked(
    r: RunArgs,
    plan: Limits,
    limit: Option<Result<Seq<SettingText>, LimitError>>,
    say: Seq<char>,
)
    requires
        only_asked(r, plan.steps),
        limit matches Some(Ok(ws)) ==> forall|i: int|
            0 <= i < ws.len() ==> asks_for(r, (#[trigger] ws[i]).file),
    ensures
        only_asked(r, and_limit(plan, limit, say).steps),
{
    let next = and_limit(plan, limit, say);
    assert forall|i: int| 0 <= i < next.steps.len() implies ((
    #[trigger] next.steps[i]) matches LimitText::Write(s) ==> asks_for(r, s.file)) by {
        if i < plan.steps.len() {
            assert(next.steps[i] == plan.steps[i]);
        } else if let Some(Ok(ws)) = limit {
            if i < plan.steps.len() + ws.len() {
                assert(next.steps[i] == LimitText::Write(ws[i - plan.steps.len()]));
            }
        }
    }
}

proof fn lemma_vram_asked(
    r: RunArgs,
    plan: Limits,
    cgroup: Seq<char>,
    cap: Seq<(Seq<char>, u64)>,
)
    requires
        only_asked(r, plan.steps),
    ensures
        only_asked(r, vram_limits(plan, cgroup, r, cap).steps),
{
    let low = match vram(r.vram_low.deep_view(), "dmem.low"@, cap) {
        None => None,
        Some(Ok(ws)) => Some(Ok(ws)),
        Some(Err(e)) => Some(Err(LimitError::VramLow(e))),
    };
    let max = match vram(r.vram_max.deep_view(), "dmem.max"@, cap) {
        None => None,
        Some(Ok(ws)) => Some(Ok(ws)),
        Some(Err(e)) => Some(Err(LimitError::VramMax(e))),
    };
    let words = vram_words("dmem.low"@, cgroup);
    lemma_only_asked(r, plan, low, words);
    lemma_only_asked(r, and_limit(plan, low, words), max, vram_words("dmem.max"@, cgroup));
}

proof fn lemma_memory_asked(r: RunArgs, plan: Limits, cgroup: Seq<char>)
    requires
        only_asked(r, plan.steps),
    ensures
        only_asked(r, memory_limits(plan, cgroup, r).steps),
{
    let max = match memory(r.memory_max, "memory.max"@) {
        None => None,
        Some(Ok(ws)) => Some(Ok(ws)),
        Some(Err(e)) => Some(Err(LimitError::MemoryMax(e))),
    };
    let high = match memory(r.memory_high, "memory.high"@) {
        None => None,
        Some(Ok(ws)) => Some(Ok(ws)),
        Some(Err(e)) => Some(Err(LimitError::MemoryHigh(e))),
    };
    let low = match memory(r.memory_low, "memory.low"@) {
        None => None,
        Some(Ok(ws)) => Some(Ok(ws)),
        Some(Err(e)) => Some(Err(LimitError::MemoryLow(e))),
    };
    let min = match memory(r.memory_min, "memory.min"@) {
        None => None,
        Some(Ok(ws)) => Some(Ok(ws)),
        Some(Err(e)) => Some(Err(LimitError::MemoryMin(e))),
    };
    let say_max = limit_words("memory.max"@, text_or_empty(r.memory_max), cgroup);
    let say_high = limit_words("memory.high"@, text_or_empty(r.memory_high), cgroup);
    let say_low = limit_words("memory.low"@, text_or_empty(r.memory_low), cgroup);
    let say_min = limit_words("memory.min"@, text_or_empty(r.memory_min), cgroup);
    let one = and_limit(plan, max, say_max);
    let two = and_limit(one, high, say_high);
    let three = and_limit(two, low, say_low);
    lemma_only_asked(r, plan, max, say_max);
    lemma_only_asked(r, one, high, say_high);
    lemma_only_asked(r, two, low, say_low);
    lemma_only_asked(r, three, min, say_min);
}

proof fn lemma_cpu_asked(r: RunArgs, plan: Limits, cgroup: Seq<char>)
    requires
        only_asked(r, plan.steps),
    ensures
        only_asked(r, cpu_limits(plan, cgroup, r).steps),
{
    let weight = match r.cpu_weight {
        None => None,
        Some(w) => match cpu_weight(w) {
            Ok(s) => Some(Ok(seq![s])),
            Err(_) => Some(Err(LimitError::Weight)),
        },
    };
    let nice = match r.cpu_weight_nice {
        None => None,
        Some(n) => match cpu_weight_nice(n) {
            Ok(s) => Some(Ok(seq![s])),
            Err(_) => Some(Err(LimitError::Nice)),
        },
    };
    let shown = match r.cpu_weight {
        Some(w) => decimal(w as nat),
        None => Seq::empty(),
    };
    let shown_nice = match r.cpu_weight_nice {
        Some(n) => signed_decimal(n as int),
        None => Seq::empty(),
    };
    let say = limit_words("cpu.weight"@, shown, cgroup);
    lemma_only_asked(r, plan, weight, say);
    lemma_only_asked(
        r,
        and_limit(plan, weight, say),
        nice,
        limit_words("cpu.weight.nice"@, shown_nice, cgroup),
    );
}

/// A run writes to the files of the limits that it asks for and to no other:
/// what it does not ask for is left alone.
pub proof fn law_unasked_limits_are_left_alone(
    cgroup: Seq<char>,
    r: RunArgs,
    cap: Seq<(Seq<char>, u64)>,
)
    ensures
        only_asked(r, limits_of(cgroup, r, cap).steps),
{
    let none = Limits { steps: Seq::empty(), stop: None };
    lemma_vram_asked(r, none, cgroup, cap);
    let one = vram_limits(none, cgroup, r, cap);
    lemma_memory_asked(r, one, cgroup);
    lemma_cpu_asked(r, memory_limits(one, cgroup, r), cgroup);
}

/// Says why a limit on system memory cannot be set.
pub open spec fn memory_complaint(
    cgroup: Seq<char>,
    file: Seq<char>,
    raw: Seq<char>,
    e: SizeError,
) -> Seq<char> {
    "write "@ + cgroup + "/"@ + file + ": invalid --"@ + file + " value '"@ + raw
        + "' (use SIZE like 512M/7G or max): "@ + size_complaint(e, raw)
}

/// Says why a limit on system memory cannot be set.
fn memory_message(cgroup: &str, file: &str, raw: &Option<String>, e: SizeError) -> (r: String)
    ensures
        r@ == memory_complaint(cgroup@, file@, text_or_empty(*raw), e),
{
    let text = match raw {
        Some(t) => t.clone(),
        None => String::new(),
    };
    "write ".to_owned().concat(cgroup).concat("/").concat(file).concat(": invalid --").concat(
        file,
    ).concat(" value '").concat(text.as_str()).concat("' (use SIZE like 512M/7G or max): ").concat(
        size_message(e, text.as_str()).as_str(),
    )
}

/// Says why a limit cannot be set.
pub open spec fn limit_complaint(
    e: LimitError,
    cgroup: Seq<char>,
    r: RunArgs,
    cap: Seq<(Seq<char>, u64)>,
) -> Seq<char> {
    match e {
        LimitError::VramLow(e) => expand_complaint(e, r.vram_low.deep_view(), cap),
        LimitError::VramMax(e) => expand_complaint(e, r.vram_max.deep_view(), cap),
        LimitError::MemoryMax(e) => memory_complaint(
            cgroup,
            "memory.max"@,
            text_or_empty(r.memory_max),
            e,
        ),
        LimitError::MemoryHigh(e) => memory_complaint(
            cgroup,
            "memory.high"@,
            text_or_empty(r.memory_high),
            e,
        ),
        LimitError::MemoryLow(e) => memory_complaint(
            cgroup,
            "memory.low"@,
            text_or_empty(r.memory_low),
            e,
        ),
        LimitError::MemoryMin(e) => memory_complaint(
            cgroup,
            "memory.min"@,
            text_or_empty(r.memory_min),
            e,
        ),
        LimitError::Weight => "write "@ + cgroup + "/cpu.weight: cpu.weight must be 1..10000, got "@
            + match r.cpu_weight {
            Some(w) => decimal(w as nat),
            None => decimal(0),
        },
        LimitError::Nice => "write "@ + cgroup
            + "/cpu.weight.nice: cpu.weight.nice must be -20..19, got "@
            + match r.cpu_weight_nice {
            Some(n) => signed_decimal(n as int),
            None => signed_decimal(0),
        },
    }
}

/// Says why a limit cannot be set.
pub fn limit_message(e: LimitError, cgroup: &str, r: &RunArgs, cap: &Capacity) -> (t: String)
    ensures
        t@ == limit_complaint(e, cgroup@, *r, cap@),
{
    match e {
        LimitError::VramLow(e) => expand_message(e, r.vram_low.as_slice(), cap),
        LimitError::VramMax(e) => expand_message(e, r.vram_max.as_slice(), cap),
        LimitError::MemoryMax(e) => memory_message(cgroup, "memory.max", &r.memory_max, e),
        LimitError::MemoryHigh(e) => memory_message(cgroup, "memory.high", &r.memory_high, e),
        LimitError::MemoryLow(e) => memory_message(cgroup, "memory.low", &r.memory_low, e),
        LimitError::MemoryMin(e) => memory_message(cgroup, "memory.min", &r.memory_min, e),
        LimitError::Weight => {
            let got = match r.cpu_weight {
                Some(w) => show(w as u64),
                None => show(0),
            };
            "write ".to_owned().concat(cgroup).concat(
                "/cpu.weight: cpu.weight must be 1..10000, got ",
            ).concat(got.as_str())
        },
        LimitError::Nice => {
            let got = match r.cpu_weight_nice {
                Some(n) => show_signed(n),
                None => show_signed(0),
            };
            "write ".to_owned().concat(cgroup).concat(
                "/cpu.weight.nice: cpu.weight.nice must be -20..19, got ",
            ).concat(got.as_str())
        },
    }
}

/// The steps of one limit: its writes, and then a word on them.
pub open spec fn set_and_said(ws: Seq<SettingText>, say: Seq<char>) -> Seq<LimitText> {
    ws.map_values(|w: SettingText| LimitText::Write(w)).push(LimitText::Say(say))
}

/// The steps of a limit on device memory, where one is asked for: a write for
/// each region that it is resolved to.
pub open spec fn vram_steps(
    file: Seq<char>,
    specs: Seq<Seq<char>>,
    cap: Seq<(Seq<char>, u64)>,
    cgroup: Seq<char>,
) -> Seq<LimitText> {
    if specs.len() == 0 {
        Seq::empty()
    } else {
        set_and_said(
            (expanded(specs, cap)->Ok_0).map_values(
                |p: (Seq<char>, Option<u64>)|
                    SettingText {
                        file,
                        body: p.0 + " "@ + (match p.1 {
                            Some(n) => decimal(n as nat),
                            None => "max"@,
                        }) + "\n"@,
                    },
            ),
            file + " configured for "@ + cgroup,
        )
    }
}

/// The steps of a limit on system memory, where one is asked for: one write of
/// the bytes that it comes to.
pub open spec fn memory_steps(file: Seq<char>, raw: Option<String>, cgroup: Seq<char>) -> Seq<
    LimitText,
> {
    match raw {
        None => Seq::empty(),
        Some(t) => set_and_said(
            seq![
                SettingText {
                    file,
                    body: (match size(t@)->Ok_0 {
                        Some(n) => decimal(n as nat),
                        None => "max"@,
                    }) + "\n"@,
                },
            ],
            file + "="@ + t@ + " set for "@ + cgroup,
        ),
    }
}

/// What is wrong with the first limit that cannot be set, in the order in which
/// they are set.
pub open spec fn first_fault(r: RunArgs, cap: Seq<(Seq<char>, u64)>) -> Option<LimitError> {
    if r.vram_low@.len() > 0 && expanded(r.vram_low.deep_view(), cap) is Err {
        Some(LimitError::VramLow(expanded(r.vram_low.deep_view(), cap)->Err_0))
    } else if r.vram_max@.len() > 0 && expanded(r.vram_max.deep_view(), cap) is Err {
        Some(LimitError::VramMax(expanded(r.vram_max.deep_view(), cap)->Err_0))
    } else if r.memory_max is Some && size(r.memory_max->0@) is Err {
        Some(LimitError::MemoryMax(size(r.memory_max->0@)->Err_0))
    } else if r.memory_high is Some && size(r.memory_high->0@) is Err {
        Some(LimitError::MemoryHigh(size(r.memory_high->0@)->Err_0))
    } else if r.memory_low is Some && size(r.memory_low->0@) is Err {
        Some(LimitError::MemoryLow(size(r.memory_low->0@)->Err_0))
    } else if r.memory_min is Some && size(r.memory_min->0@) is Err {
        Some(LimitError::MemoryMin(size(r.memory_min->0@)->Err_0))
    } else if r.cpu_weight is Some && !(1 <= r.cpu_weight->0 <= 10000) {
        Some(LimitError::Weight)
    } else if r.cpu_weight_nice is Some && !(-20 <= r.cpu_weight_nice->0 <= 19) {
        Some(LimitError::Nice)
    } else {
        None
    }
}

proof fn lemma_limit_steps(
    plan: Limits,
    limit: Option<Result<Seq<SettingText>, LimitError>>,
    say: Seq<char>,
    steps: Seq<LimitText>,
)
    requires
        plan.stop is None,
        limit is None ==> steps.len() == 0,
        limit matches Some(Ok(ws)) ==> steps == set_and_said(ws, say),
    ensures
        match limit {
            Some(Err(e)) => and_limit(plan, limit, say) == (Limits {
                steps: plan.steps,
                stop: Some(e),
            }),
            _ => and_limit(plan, limit, say) == (Limits { steps: plan.steps + steps, stop: None }),
        },
{
    let next = and_limit(plan, limit, say);
    match limit {
        None => {
            assert(plan.steps + steps =~= plan.steps);
        },
        Some(Ok(ws)) => {
            assert(next.steps =~= plan.steps + steps);
        },
        Some(Err(_)) => {},
    }
}

proof fn lemma_vram_steps(
    plan: Limits,
    cgroup: Seq<char>,
    r: RunArgs,
    cap: Seq<(Seq<char>, u64)>,
)
    requires
        plan.stop is None,
    ensures
        ({
            let low = vram_steps("dmem.low"@, r.vram_low.deep_view(), cap, cgroup);
            let max = vram_steps("dmem.max"@, r.vram_max.deep_view(), cap, cgroup);
            let next = vram_limits(plan, cgroup, r, cap);
            if r.vram_low@.len() > 0 && expanded(r.vram_low.deep_view(), cap) is Err {
                next == (Limits { steps: plan.steps, stop: first_fault(r, cap) })
            } else if r.vram_max@.len() > 0 && expanded(r.vram_max.deep_view(), cap) is Err {
                next == (Limits { steps: plan.steps + low, stop: first_fault(r, cap) })
            } else {
                next == (Limits { steps: plan.steps + low + max, stop: None })
            }
        }),
{
    let low = match vram(r.vram_low.deep_view(), "dmem.low"@, cap) {
        None => None,
        Some(Ok(ws)) => Some(Ok(ws)),
        Some(Err(e)) => Some(Err(LimitError::VramLow(e))),
    };
    let max = match vram(r.vram_max.deep_view(), "dmem.max"@, cap) {
        None => None,
        Some(Ok(ws)) => Some(Ok(ws)),
        Some(Err(e)) => Some(Err(LimitError::VramMax(e))),
    };
    let low_steps = vram_steps("dmem.low"@, r.vram_low.deep_view(), cap, cgroup);
    let max_steps = vram_steps("dmem.max"@, r.vram_max.deep_view(), cap, cgroup);
    lemma_one_vram("dmem.low"@, r.vram_low.deep_view(), cap, cgroup);
    lemma_one_vram("dmem.max"@, r.vram_max.deep_view(), cap, cgroup);
    let say = vram_words("dmem.low"@, cgroup);
    lemma_limit_steps(plan, low, say, low_steps);
    let one = and_limit(plan, low, say);
    if one.stop is None {
        lemma_limit_steps(one, max, vram_words("dmem.max"@, cgroup), max_steps);
    }
}

proof fn lemma_one_vram(
    file: Seq<char>,
    specs: Seq<Seq<char>>,
    cap: Seq<(Seq<char>, u64)>,
    cgroup: Seq<char>,
)
    ensures
        specs.len() > 0 && expanded(specs, cap) is Ok ==> vram_steps(file, specs, cap, cgroup)
            == set_and_said(
            dmem_settings(file, expanded(specs, cap)->Ok_0),
            vram_words(file, cgroup),
        ),
{
    let pairs = expanded(specs, cap)->Ok_0;
    assert(dmem_settings(file, pairs) =~= pairs.map_values(
        |p: (Seq<char>, Option<u64>)|
            SettingText {
                file,
                body: p.0 + " "@ + (match p.1 {
                    Some(n) => decimal(n as nat),
                    None => "max"@,
                }) + "\n"@,
            },
    ));
}

spec fn memory_fault(r: RunArgs) -> Option<LimitError> {
    if r.memory_max is Some && size(r.memory_max->0@) is Err {
        Some(LimitError::MemoryMax(size(r.memory_max->0@)->Err_0))
    } else if r.memory_high is Some && size(r.memory_high->0@) is Err {
        Some(LimitError::MemoryHigh(size(r.memory_high->0@)->Err_0))
    } else if r.memory_low is Some && size(r.memory_low->0@) is Err {
        Some(LimitError::MemoryLow(size(r.memory_low->0@)->Err_0))
    } else if r.memory_min is Some && size(r.memory_min->0@) is Err {
        Some(LimitError::MemoryMin(size(r.memory_min->0@)->Err_0))
    } else {
        None
    }
}

proof fn lemma_memory_steps(plan: Limits, cgroup: Seq<char>, r: RunArgs)
    requires
        plan.stop is None,
    ensures
        ({
            let max = memory_steps("memory.max"@, r.memory_max, cgroup);
            let high = memory_steps("memory.high"@, r.memory_high, cgroup);
            let low = memory_steps("memory.low"@, r.memory_low, cgroup);
            let min = memory_steps("memory.min"@, r.memory_min, cgroup);
            let next = memory_limits(plan, cgroup, r);
            &&& next.stop == memory_fault(r)
            &&& next.stop is None ==> next.steps == plan.steps + max + high + low + min
            &&& next.stop matches Some(LimitError::MemoryMax(_)) ==> next.steps == plan.steps
            &&& next.stop matches Some(LimitError::MemoryHigh(_)) ==> next.steps == plan.steps + max
            &&& next.stop matches Some(LimitError::MemoryLow(_)) ==> next.steps == plan.steps + max
                + high
            &&& next.stop matches Some(LimitError::MemoryMin(_)) ==> next.steps == plan.steps + max
                + high + low
        }),
{
    let max = match memory(r.memory_max, "memory.max"@) {
        None => None,
        Some(Ok(ws)) => Some(Ok(ws)),
        Some(Err(e)) => Some(Err(LimitError::MemoryMax(e))),
    };
    let high = match memory(r.memory_high, "memory.high"@) {
        None => None,
        Some(Ok(ws)) => Some(Ok(ws)),
        Some(Err(e)) => Some(Err(LimitError::MemoryHigh(e))),
    };
    let low = match memory(r.memory_low, "memory.low"@) {
        None => None,
        Some(Ok(ws)) => Some(Ok(ws)),
        Some(Err(e)) => Some(Err(LimitError::MemoryLow(e))),
    };
    let min = match memory(r.memory_min, "memory.min"@) {
        None => None,
        Some(Ok(ws)) => Some(Ok(ws)),
        Some(Err(e)) => Some(Err(LimitError::MemoryMin(e))),
    };
    let say_max = limit_words("memory.max"@, text_or_empty(r.memory_max), cgroup);
    let say_high = limit_words("memory.high"@, text_or_empty(r.memory_high), cgroup);
    let say_low = limit_words("memory.low"@, text_or_empty(r.memory_low), cgroup);
    let say_min = limit_words("memory.min"@, text_or_empty(r.memory_min), cgroup);
    let one = and_limit(plan, max, say_max);
    let two = and_limit(one, high, say_high);
    let three = and_limit(two, low, say_low);
    lemma_limit_steps(plan, max, say_max, memory_steps("memory.max"@, r.memory_max, cgroup));
    if one.stop is None {
        lemma_limit_steps(one, high, say_high, memory_steps("memory.high"@, r.memory_high, cgroup));
    }
    if two.stop is None {
        lemma_limit_steps(two, low, say_low, memory_steps("memory.low"@, r.memory_low, cgroup));
    }
    if three.stop is None {
        lemma_limit_steps(three, min, say_min, memory_steps("memory.min"@, r.memory_min, cgroup));
    }
}

/// The steps of a weight, where one is asked for.
pub open spec fn weight_steps(w: Option<u32>, cgroup: Seq<char>) -> Seq<LimitText> {
    match w {
        None => Seq::empty(),
        Some(n) => set_and_said(
            seq![SettingText { file: "cpu.weight"@, body: decimal(n as nat) }],
            "cpu.weight"@ + "="@ + decimal(n as nat) + " set for "@ + cgroup,
        ),
    }
}

/// The steps of a nice value, where one is asked for.
pub open spec fn nice_steps(n: Option<i32>, cgroup: Seq<char>) -> Seq<LimitText> {
    match n {
        None => Seq::empty(),
        Some(n) => set_and_said(
            seq![SettingText { file: "cpu.weight.nice"@, body: signed_decimal(n as int) }],
            "cpu.weight.nice"@ + "="@ + signed_decimal(n as int) + " set for "@ + cgroup,
        ),
    }
}

proof fn lemma_cpu_steps(plan: Limits, cgroup: Seq<char>, r: RunArgs)
    requires
        plan.stop is None,
    ensures
        ({
            let next = cpu_limits(plan, cgroup, r);
            if r.cpu_weight is Some && !(1 <= r.cpu_weight->0 <= 10000) {
                next == (Limits { steps: plan.steps, stop: Some(LimitError::Weight) })
            } else if r.cpu_weight_nice is Some && !(-20 <= r.cpu_weight_nice->0 <= 19) {
                next == (Limits {
                    steps: plan.steps + weight_steps(r.cpu_weight, cgroup),
                    stop: Some(LimitError::Nice),
                })
            } else {
                next == (Limits {
                    steps: plan.steps + weight_steps(r.cpu_weight, cgroup) + nice_steps(
                        r.cpu_weight_nice,
                        cgroup,
                    ),
                    stop: None,
                })
            }
        }),
{
    let weight = match r.cpu_weight {
        None => None,
        Some(w) => match cpu_weight(w) {
            Ok(s) => Some(Ok(seq![s])),
            Err(_) => Some(Err(LimitError::Weight)),
        },
    };
    let nice = match r.cpu_weight_nice {
        None => None,
        Some(n) => match cpu_weight_nice(n) {
            Ok(s) => Some(Ok(seq![s])),
            Err(_) => Some(Err(LimitError::Nice)),
        },
    };
    let shown = match r.cpu_weight {
        Some(w) => decimal(w as nat),
        None => Seq::empty(),
    };
    let shown_nice = match r.cpu_weight_nice {
        Some(n) => signed_decimal(n as int),
        None => Seq::empty(),
    };
    let say = limit_words("cpu.weight"@, shown, cgroup);
    let one = and_limit(plan, weight, say);
    lemma_limit_steps(plan, weight, say, weight_steps(r.cpu_weight, cgroup));
    if one.stop is None {
        lemma_limit_steps(
            one,
            nice,
            limit_words("cpu.weight.nice"@, shown_nice, cgroup),
            nice_steps(r.cpu_weight_nice, cgroup),
        );
    }
}

/// The plan stops at the first limit that cannot be set, with what is wrong
/// with it, and where there is none it does not stop: every limit that the run
/// asks for is then written with the value asked for, and said, and nothing
/// else is, in this order.
pub proof fn law_asked_limits_are_set(cgroup: Seq<char>, r: RunArgs, cap: Seq<(Seq<char>, u64)>)
    ensures
        limits_of(cgroup, r, cap).stop == first_fault(r, cap),
        first_fault(r, cap) is None ==> limits_of(cgroup, r, cap).steps == vram_steps(
            "dmem.low"@,
            r.vram_low.deep_view(),
            cap,
            cgroup,
        ) + vram_steps("dmem.max"@, r.vram_max.deep_view(), cap, cgroup) + memory_steps(
            "memory.max"@,
            r.memory_max,
            cgroup,
        ) + memory_steps("memory.high"@, r.memory_high, cgroup) + memory_steps(
            "memory.low"@,
            r.memory_low,
            cgroup,
        ) + memory_steps("memory.min"@, r.memory_min, cgroup) + weight_steps(r.cpu_weight, cgroup)
            + nice_steps(r.cpu_weight_nice, cgroup),
{
    let none = Limits { steps: Seq::empty(), stop: None };
    let low = vram_steps("dmem.low"@, r.vram_low.deep_view(), cap, cgroup);
    lemma_vram_steps(none, cgroup, r, cap);
    assert(none.steps + low =~= low);
    let one = vram_limits(none, cgroup, r, cap);
    if one.stop is None {
        lemma_memory_steps(one, cgroup, r);
        let two = memory_limits(one, cgroup, r);
        if two.stop is None {
            lemma_cpu_steps(two, cgroup, r);
        }
    }
}

/// Where the plan does not stop, each limit that the run asks for has its write:
/// to the file of that limit, with the value asked for.
pub proof fn law_every_asked_limit_is_written(
    cgroup: Seq<char>,
    r: RunArgs,
    cap: Seq<(Seq<char>, u64)>,
)
    requires
        limits_of(cgroup, r, cap).stop is None,
    ensures
        ({
            let steps = limits_of(cgroup, r, cap).steps;
            &&& r.memory_max matches Some(t) ==> is_written(steps, "memory.max"@, t@)
            &&& r.memory_high matches Some(t) ==> is_written(steps, "memory.high"@, t@)
            &&& r.memory_low matches Some(t) ==> is_written(steps, "memory.low"@, t@)
            &&& r.memory_min matches Some(t) ==> is_written(steps, "memory.min"@, t@)
            &&& r.cpu_weight matches Some(w) ==> steps.contains(
                LimitText::Write(SettingText { file: "cpu.weight"@, body: decimal(w as nat) }),
            )
            &&& r.cpu_weight_nice matches Some(n) ==> steps.contains(
                LimitText::Write(
                    SettingText { file: "cpu.weight.nice"@, body: signed_decimal(n as int) },
                ),
            )
            &&& r.vram_low@.len() > 0 ==> are_written(
                steps,
                "dmem.low"@,
                expanded(r.vram_low.deep_view(), cap),
            )
            &&& r.vram_max@.len() > 0 ==> are_written(
                steps,
                "dmem.max"@,
                expanded(r.vram_max.deep_view(), cap),
            )
        }),
{
    law_asked_limits_are_set(cgroup, r, cap);
    let steps = limits_of(cgroup, r, cap).steps;
    let a = vram_steps("dmem.low"@, r.vram_low.deep_view(), cap, cgroup);
    let b = vram_steps("dmem.max"@, r.vram_max.deep_view(), cap, cgroup);
    let c = memory_steps("memory.max"@, r.memory_max, cgroup);
    let d = memory_steps("memory.high"@, r.memory_high, cgroup);
    let e = memory_steps("memory.low"@, r.memory_low, cgroup);
    let f = memory_steps("memory.min"@, r.memory_min, cgroup);
    let g = weight_steps(r.cpu_weight, cgroup);
    let h = nice_steps(r.cpu_weight_nice, cgroup);
    lemma_steps_kept(a, b);
    lemma_steps_kept(a + b, c);
    lemma_steps_kept(a + b + c, d);
    lemma_steps_kept(a + b + c + d, e);
    lemma_steps_kept(a + b + c + d + e, f);
    lemma_steps_kept(a + b + c + d + e + f, g);
    lemma_steps_kept(a + b + c + d + e + f + g, h);
    lemma_vram_written(steps, "dmem.low"@, r.vram_low.deep_view(), cap, cgroup);
    lemma_vram_written(steps, "dmem.max"@, r.vram_max.deep_view(), cap, cgroup);
    lemma_memory_written(steps, "memory.max"@, r.memory_max, cgroup);
    lemma_memory_written(steps, "memory.high"@, r.memory_high, cgroup);
    lemma_memory_written(steps, "memory.low"@, r.memory_low, cgroup);
    lemma_memory_written(steps, "memory.min"@, r.memory_min, cgroup);
    if r.cpu_weight is Some {
        assert(g.contains(g[0]));
    }
    if r.cpu_weight_nice is Some {
        assert(h.contains(h[0]));
    }
}

/// Whether the bytes that a size comes to, or `max`, are written to a file.
pub open spec fn is_written(steps: Seq<LimitText>, file: Seq<char>, raw: Seq<char>) -> bool {
    match size(raw) {
        Ok(Some(n)) => steps.contains(
            LimitText::Write(SettingText { file, body: decimal(n as nat) + "\n"@ }),
        ),
        Ok(None) => steps.contains(LimitText::Write(SettingText { file, body: "max"@ + "\n"@ })),
        Err(_) => false,
    }
}

/// Whether each region that limits are resolved to is written to a file with
/// its limit.
pub open spec fn are_written(
    steps: Seq<LimitText>,
    file: Seq<char>,
    limits: Result<Seq<(Seq<char>, Option<u64>)>, ExpandError>,
) -> bool {
    match limits {
        Ok(pairs) => forall|i: int|
            0 <= i < pairs.len() ==> match (#[trigger] pairs[i]).1 {
                Some(n) => steps.contains(
                    LimitText::Write(
                        SettingText {
                            file,
                            body: pairs[i].0 + " "@ + decimal(n as nat) + "\n"@,
                        },
                    ),
                ),
                None => steps.contains(
                    LimitText::Write(
                        SettingText { file, body: pairs[i].0 + " "@ + "max"@ + "\n"@ },
                    ),
                ),
            },
        Err(_) => false,
    }
}

/// Whether `steps` holds each of `some`.
pub open spec fn holds_all(steps: Seq<LimitText>, some: Seq<LimitText>) -> bool {
    forall|s: LimitText| #[trigger] some.contains(s) ==> steps.contains(s)
}

proof fn lemma_steps_kept(a: Seq<LimitText>, b: Seq<LimitText>)
    ensures
        holds_all(a + b, a),
        holds_all(a + b, b),
{
    let all = a + b;
    assert forall|s: LimitText| #[trigger] a.contains(s) implies all.contains(s) by {
        let i = choose|i: int| 0 <= i < a.len() && a[i] == s;
        assert(all[i] == s);
    }
    assert forall|s: LimitText| #[trigger] b.contains(s) implies all.contains(s) by {
        let i = choose|i: int| 0 <= i < b.len() && b[i] == s;
        assert(all[a.len() + i] == s);
    }
}

proof fn lemma_memory_written(
    steps: Seq<LimitText>,
    file: Seq<char>,
    raw: Option<String>,
    cgroup: Seq<char>,
)
    requires
        holds_all(steps, memory_steps(file, raw, cgroup)),
        raw is Some ==> size(raw->0@) is Ok,
    ensures
        raw is Some ==> is_written(steps, file, raw->0@),
{
    let b = memory_steps(file, raw, cgroup);
    if raw is Some {
        assert(b.contains(b[0]));
    }
}

proof fn lemma_vram_written(
    steps: Seq<LimitText>,
    file: Seq<char>,
    specs: Seq<Seq<char>>,
    cap: Seq<(Seq<char>, u64)>,
    cgroup: Seq<char>,
)
    requires
        holds_all(steps, vram_steps(file, specs, cap, cgroup)),
        specs.len() > 0 ==> expanded(specs, cap) is Ok,
    ensures
        specs.len() > 0 ==> are_written(steps, file, expanded(specs, cap)),
{
    if specs.len() > 0 {
        let pairs = expanded(specs, cap)->Ok_0;
        let b = vram_steps(file, specs, cap, cgroup);
        assert forall|i: int| 0 <= i < pairs.len() implies match (#[trigger] pairs[i]).1 {
            Some(n) => steps.contains(
                LimitText::Write(
                    SettingText { file, body: pairs[i].0 + " "@ + decimal(n as nat) + "\n"@ },
                ),
            ),
            None => steps.contains(
                LimitText::Write(
                    SettingText { file, body: pairs[i].0 + " "@ + "max"@ + "\n"@ },
                ),
            ),
        } by {
            assert(b.contains(b[i]));
        }
    }
}

/// Where a limit cannot be set, those before it are set as they would be without
/// it, and none after it is.
pub proof fn law_limits_before_a_fault_are_set(
    cgroup: Seq<char>,
    r: RunArgs,
    cap: Seq<(Seq<char>, u64)>,
)
    requires
        first_fault(r, cap) is Some,
    ensures
        ({
            let a = vram_steps("dmem.low"@, r.vram_low.deep_view(), cap, cgroup);
            let b = vram_steps("dmem.max"@, r.vram_max.deep_view(), cap, cgroup);
            let c = memory_steps("memory.max"@, r.memory_max, cgroup);
            let d = memory_steps("memory.high"@, r.memory_high, cgroup);
            let e = memory_steps("memory.low"@, r.memory_low, cgroup);
            let f = memory_steps("memory.min"@, r.memory_min, cgroup);
            let g = weight_steps(r.cpu_weight, cgroup);
            limits_of(cgroup, r, cap).steps == match first_fault(r, cap)->0 {
                LimitError::VramLow(_) => Seq::empty(),
                LimitError::VramMax(_) => a,
                LimitError::MemoryMax(_) => a + b,
                LimitError::MemoryHigh(_) => a + b + c,
                LimitError::MemoryLow(_) => a + b + c + d,
                LimitError::MemoryMin(_) => a + b + c + d + e,
                LimitError::Weight => a + b + c + d + e + f,
                LimitError::Nice => a + b + c + d + e + f + g,
            }
        }),
{
    let none = Limits { steps: Seq::empty(), stop: None };
    let low = vram_steps("dmem.low"@, r.vram_low.deep_view(), cap, cgroup);
    lemma_vram_steps(none, cgroup, r, cap);
    assert(none.steps + low =~= low);
    let one = vram_limits(none, cgroup, r, cap);
    if one.stop is None {
        lemma_memory_steps(one, cgroup, r);
        let two = memory_limits(one, cgroup, r);
        if two.stop is None {
            lemma_cpu_steps(two, cgroup, r);
        }
    }
}

/// The words on a limit that cannot be set name the file that it would be
/// written to and the value that was asked for.
pub proof fn law_limit_complaints(
    cgroup: Seq<char>,
    r: RunArgs,
    cap: Seq<(Seq<char>, u64)>,
    e: SizeError,
    x: ExpandError,
)
    ensures
        ({
            let words = |file: Seq<char>, raw: Seq<char>|
                "write "@ + cgroup + "/"@ + file + ": invalid --"@ + file + " value '"@ + raw
                    + "' (use SIZE like 512M/7G or max): "@ + size_complaint(e, raw);
            &&& r.memory_max matches Some(t) ==> limit_complaint(
                LimitError::MemoryMax(e),
                cgroup,
                r,
                cap,
            ) == words("memory.max"@, t@)
            &&& r.memory_high matches Some(t) ==> limit_complaint(
                LimitError::MemoryHigh(e),
                cgroup,
                r,
                cap,
            ) == words("memory.high"@, t@)
            &&& r.memory_low matches Some(t) ==> limit_complaint(
                LimitError::MemoryLow(e),
                cgroup,
                r,
                cap,
            ) == words("memory.low"@, t@)
            &&& r.memory_min matches Some(t) ==> limit_complaint(
                LimitError::MemoryMin(e),
                cgroup,
                r,
                cap,
            ) == words("memory.min"@, t@)
        }),
        limit_complaint(LimitError::VramLow(x), cgroup, r, cap) == expand_complaint(
            x,
            r.vram_low.deep_view(),
            cap,
        ),
        limit_complaint(LimitError::VramMax(x), cgroup, r, cap) == expand_complaint(
            x,
            r.vram_max.deep_view(),
            cap,
        ),
        r.cpu_weight matches Some(w) ==> limit_complaint(LimitError::Weight, cgroup, r, cap)
            == "write "@ + cgroup + "/cpu.weight: cpu.weight must be 1..10000, got "@ + decimal(
            w as nat,
        ),
        r.cpu_weight_nice matches Some(n) ==> limit_complaint(LimitError::Nice, cgroup, r, cap)
            == "write "@ + cgroup + "/cpu.weight.nice: cpu.weight.nice must be -20..19, got "@
            + signed_decimal(n as int),
{
}

/// A plan stops where a limit that is asked for cannot be set, and only there:
/// where it cannot be resolved to regions, is no size, or is out of its range.
pub proof fn law_only_faults_stop(cgroup: Seq<char>, r: RunArgs, cap: Seq<(Seq<char>, u64)>)
    ensures
        limits_of(cgroup, r, cap).stop is None <==> {
            &&& r.vram_low@.len() == 0 || expanded(r.vram_low.deep_view(), cap) is Ok
            &&& r.vram_max@.len() == 0 || expanded(r.vram_max.deep_view(), cap) is Ok
            &&& r.memory_max is None || size(r.memory_max->0@) is Ok
            &&& r.memory_high is None || size(r.memory_high->0@) is Ok
            &&& r.memory_low is None || size(r.memory_low->0@) is Ok
            &&& r.memory_min is None || size(r.memory_min->0@) is Ok
            &&& r.cpu_weight is None || 1 <= r.cpu_weight->0 <= 10000
            &&& r.cpu_weight_nice is None || -20 <= r.cpu_weight_nice->0 <= 19
        },
{
    law_asked_limits_are_set(cgroup, r, cap);
}

} // verus!
