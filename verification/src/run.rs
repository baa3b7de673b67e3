//! Running a command in a cgroup: what a run asks for, what the machine must
//! offer for it, and where its cgroup lies.

use vstd::prelude::*;
use vstd::utf8::{encode_utf8, is_ascii_chars, is_ascii_chars_encode_utf8};

use crate::cgroup::{read_controllers, transient_name};
use crate::control::{has_controller, memory_available};
use crate::dmem::{capacity, read_dmem_capacity, Capacity};
use crate::kill::{BASE, ROOT_BASE};
use crate::number::{decimal, hex4, is_digit, show, show_hex4};
use crate::path::{is_name, law_name_in_directory, law_names, parent, parent_path};
use crate::text::{
    chars, ends, ends_with, is_space, law_begins_and_ends, law_stripping, lemma_unbroken_trimmed,
    same, strip, stripped, text_in, trim, trimmed, words, Margin,
};

verus! {

/// What a run asks for.
#[derive(Debug)]
pub struct RunArgs {
    /// The name of a cgroup that stays; without one the cgroup is transient.
    pub persistent: Option<String>,
    /// Protections of device memory.
    pub vram_low: Vec<String>,
    /// Limits on device memory.
    pub vram_max: Vec<String>,
    /// The hard limit on system memory.
    pub memory_max: Option<String>,
    /// The boundary above which system memory is throttled.
    pub memory_high: Option<String>,
    /// The system memory that is protected.
    pub memory_low: Option<String>,
    /// The system memory that is protected at all costs.
    pub memory_min: Option<String>,
    /// The share of the processor, as a weight.
    pub cpu_weight: Option<u32>,
    /// The share of the processor, as a nice value.
    pub cpu_weight_nice: Option<i32>,
    /// For how many seconds processes that are left may end by themselves.
    pub grace: u64,
    /// Whether to run below the system's base, with privileges.
    pub priv_: bool,
    /// The command and its arguments.
    pub cmd: Vec<String>,
}

impl RunArgs {
    /// Whether device memory is to be limited.
    pub open spec fn limits_dmem(&self) -> bool {
        self.vram_low@.len() > 0 || self.vram_max@.len() > 0
    }

    /// Whether system memory is to be limited.
    pub open spec fn limits_memory(&self) -> bool {
        self.memory_max is Some || self.memory_high is Some || self.memory_low is Some
            || self.memory_min is Some
    }

    /// Whether the processor is to be shared.
    pub open spec fn limits_cpu(&self) -> bool {
        self.cpu_weight is Some || self.cpu_weight_nice is Some
    }

    /// Whether device memory is to be limited.
    pub fn needs_dmem(&self) -> (r: bool)
        ensures
            r == self.limits_dmem(),
    {
        self.vram_low.len() > 0 || self.vram_max.len() > 0
    }

    /// Whether system memory is to be limited.
    pub fn needs_memory(&self) -> (r: bool)
        ensures
            r == self.limits_memory(),
    {
        self.memory_max.is_some() || self.memory_high.is_some() || self.memory_low.is_some()
            || self.memory_min.is_some()
    }

    /// Whether the processor is to be shared.
    pub fn needs_cpu(&self) -> (r: bool)
        ensures
            r == self.limits_cpu(),
    {
        self.cpu_weight.is_some() || self.cpu_weight_nice.is_some()
    }
}

/// Why a name is none for a cgroup that stays.
#[derive(Clone, Copy, Debug, PartialEq, Eq, Structural)]
pub enum NameError {
    /// More than 128 bytes.
    TooLong,
    /// Blank, `.` or `..`.
    Blank,
    /// A character outside `[A-Za-z0-9._-]`.
    Charset,
}

/// Whether a character may stand in a name.
pub open spec fn is_name_char(c: char) -> bool {
    'A' <= c <= 'Z' || 'a' <= c <= 'z' || is_digit(c) || c == '.' || c == '-' || c == '_'
}

/// Whether all characters may stand in a name.
pub open spec fn all_name_chars(s: Seq<char>) -> bool {
    forall|i: int| 0 <= i < s.len() ==> is_name_char(#[trigger] s[i])
}

/// What is wrong with a name.
pub open spec fn name_fault(name: Seq<char>) -> Option<NameError> {
    if encode_utf8(name).len() > 128 {
        Some(NameError::TooLong)
    } else if trimmed(name).len() == 0 || name == "."@ || name == ".."@ {
        Some(NameError::Blank)
    } else if !all_name_chars(name) {
        Some(NameError::Charset)
    } else {
        None
    }
}

/// Checks the name of a cgroup that stays.
pub fn validate_persistent_name(name: &str) -> (r: Result<(), NameError>)
    ensures
        match r {
            Ok(_) => name_fault(name@) is None,
            Err(e) => name_fault(name@) == Some(e),
        },
{
    if name.as_bytes().len() > 128 {
        return Err(NameError::TooLong);
    }
    if trim(name).is_empty() || same(name, ".") || same(name, "..") {
        return Err(NameError::Blank);
    }
    let cs = chars(name);
    let mut i: usize = 0;
    while i < cs.len()
        invariant
            cs@ == name@,
            i <= cs.len(),
            encode_utf8(name@).len() <= 128,
            !(trimmed(name@).len() == 0 || name@ == "."@ || name@ == ".."@),
            forall|j: int| 0 <= j < i ==> is_name_char(#[trigger] name@[j]),
        decreases cs.len() - i,
    {
        let c = cs[i];
        if !(('A' <= c && c <= 'Z') || ('a' <= c && c <= 'z') || ('0' <= c && c <= '9') || c == '.'
            || c == '-' || c == '_') {
            assert(!is_name_char(name@[i as int]));
            return Err(NameError::Charset);
        }
        i = i + 1;
    }
    Ok(())
}

/// Says what is wrong with a name.
pub open spec fn name_complaint(e: NameError, name: Seq<char>) -> Seq<char> {
    match e {
        NameError::TooLong => "invalid --persistent NAME (max 128 chars)"@,
        NameError::Blank => "invalid --persistent NAME"@,
        NameError::Charset => "invalid --persistent NAME '"@ + name
            + "': use [A-Za-z0-9._-] only"@,
    }
}

/// Says what is wrong with a name.
pub fn name_message(e: NameError, name: &str) -> (r: String)
    ensures
        r@ == name_complaint(e, name@),
{
    match e {
        NameError::TooLong => "invalid --persistent NAME (max 128 chars)".to_owned(),
        NameError::Blank => "invalid --persistent NAME".to_owned(),
        NameError::Charset => "invalid --persistent NAME '".to_owned().concat(name).concat(
            "': use [A-Za-z0-9._-] only",
        ),
    }
}

/// Why a run cannot be.
#[derive(Clone, Copy, Debug, PartialEq, Eq, Structural)]
pub enum Lack {
    /// There is no command.
    Command,
    /// There is a weight and a nice value.
    OneWeight,
    /// The machine has no device memory to limit.
    Dmem,
    /// The machine does not share the processor.
    Cpu,
    /// The machine does not limit system memory.
    Memory,
}

/// The regions that the text of `dmem.capacity` gives, none where it cannot be
/// read.
pub open spec fn regions_in(data: Option<Seq<char>>) -> Seq<(Seq<char>, u64)> {
    match data {
        Some(d) => match capacity(d) {
            Ok(cap) => cap,
            Err(_) => Seq::empty(),
        },
        None => Seq::empty(),
    }
}

/// The controllers that the text of `cgroup.controllers` lists, none where it
/// cannot be read.
pub open spec fn controllers_in(data: Option<Seq<char>>) -> Seq<Seq<char>> {
    match data {
        Some(d) => words(d),
        None => Seq::empty(),
    }
}

/// What a run lacks, given the controllers and the regions that there are.
pub open spec fn lack_of(
    r: RunArgs,
    controllers: Seq<Seq<char>>,
    regions: Seq<(Seq<char>, u64)>,
) -> Option<Lack> {
    if r.cmd@.len() == 0 {
        Some(Lack::Command)
    } else if r.cpu_weight is Some && r.cpu_weight_nice is Some {
        Some(Lack::OneWeight)
    } else if r.limits_dmem() && regions.len() == 0 {
        Some(Lack::Dmem)
    } else if r.limits_cpu() && !controllers.contains("cpu"@) {
        Some(Lack::Cpu)
    } else if r.limits_memory() && !controllers.contains("memory"@) {
        Some(Lack::Memory)
    } else {
        None
    }
}

/// Checks that a run can be, by the texts of `cgroup.controllers` and
/// `dmem.capacity` at the mount, and gives the regions of device memory.
pub fn check_requirements(r: &RunArgs, controllers: Option<&str>, capacity: Option<&str>) -> (res:
    Result<Capacity, Lack>)
    ensures
        ({
            let lack = lack_of(
                *r,
                controllers_in(text_in(controllers)),
                regions_in(text_in(capacity)),
            );
            match res {
                Ok(cap) => lack is None && cap@ == regions_in(text_in(capacity)),
                Err(e) => lack == Some(e),
            }
        }),
{
    if r.cmd.len() == 0 {
        return Err(Lack::Command);
    }
    if r.cpu_weight.is_some() && r.cpu_weight_nice.is_some() {
        return Err(Lack::OneWeight);
    }
    let names: Vec<String> = match controllers {
        Some(data) => read_controllers(data),
        None => Vec::new(),
    };
    assert(names.deep_view() =~= controllers_in(text_in(controllers)));
    let cap = match read_dmem_capacity(capacity) {
        Ok(cap) => cap,
        Err(_) => Capacity::new(),
    };
    assert(cap@ =~= regions_in(text_in(capacity)));
    if r.needs_dmem() && cap.is_empty() {
        return Err(Lack::Dmem);
    }
    if r.needs_cpu() && !has_controller(names.as_slice(), "cpu") {
        return Err(Lack::Cpu);
    }
    if r.needs_memory() && !memory_available(names.as_slice()) {
        return Err(Lack::Memory);
    }
    Ok(cap)
}

/// Says what a run lacks.
pub open spec fn lack_text(l: Lack) -> Seq<char> {
    match l {
        Lack::Command => "no command provided (use -- <cmd>)"@,
        Lack::OneWeight => "use only one of --cpu-weight or --cpu-weight-nice"@,
        Lack::Dmem => "dmem not available: /sys/fs/cgroup/dmem.capacity is empty or missing (no regions / driver support)"@,
        Lack::Cpu => "cpu controller not available"@,
        Lack::Memory => "memory controller not available"@,
    }
}

/// Says what a run lacks.
pub fn lack_message(l: Lack) -> (r: &'static str)
    ensures
        r@ == lack_text(l),
{
    match l {
        Lack::Command => "no command provided (use -- <cmd>)",
        Lack::OneWeight => "use only one of --cpu-weight or --cpu-weight-nice",
        Lack::Dmem => "dmem not available: /sys/fs/cgroup/dmem.capacity is empty or missing (no regions / driver support)",
        Lack::Cpu => "cpu controller not available",
        Lack::Memory => "memory controller not available",
    }
}

/// The tag of a transient leaf: the low sixteen bits of a process number mixed
/// with a time.
pub open spec fn leaf_tag(pid: u32, nanos: u32) -> u32 {
    (nanos ^ pid) & 0xffff
}

/// The name of the cgroup of a run: the one that is given, which must be valid,
/// or that of a transient leaf. Says too whether the cgroup stays. `nanos` is
/// the part of the time below a second.
pub fn leaf_name(persistent: Option<&str>, pid: u32, nanos: u32) -> (r: Result<
    (String, bool),
    NameError,
>)
    ensures
        match persistent {
            Some(name) => match r {
                Ok((n, stays)) => name_fault(name@) is None && n@ == name@ && stays,
                Err(e) => name_fault(name@) == Some(e),
            },
            None => r matches Ok((n, stays)) && !stays && n@ == transient_name(
                decimal(pid as nat),
                hex4(leaf_tag(pid, nanos) as nat),
            ),
        },
{
    match persistent {
        Some(name) => match validate_persistent_name(name) {
            Ok(_) => Ok((name.to_owned(), true)),
            Err(e) => Err(e),
        },
        None => {
            let tag = (nanos ^ pid) & 0xffff;
            let name = "cgrun-".to_owned().concat(show(pid as u64).as_str()).concat("-").concat(
                show_hex4(tag).as_str(),
            ).concat(".scope");
            Ok((name, false))
        },
    }
}

/// The cgroup in which a run without privileges makes its own: the current one,
/// or the one above it where the current one is a scope.
pub open spec fn home(current: Seq<char>) -> Seq<char> {
    let cur = stripped(current, Margin::Slash);
    if ends(cur, ".scope"@) {
        match parent(cur) {
            Some(p) => stripped(p, Margin::Slash),
            None => Seq::empty(),
        }
    } else {
        cur
    }
}

/// Where the cgroup of a run lies: with privileges below the system's base, for
/// root below a base of its own, else in the current cgroup.
pub open spec fn leaf_place(
    priv_: bool,
    is_root: bool,
    name: Seq<char>,
    current: Seq<char>,
) -> Seq<char> {
    if priv_ {
        BASE@ + "/"@ + name
    } else if is_root {
        ROOT_BASE@ + "/"@ + name
    } else if home(current).len() == 0 {
        name
    } else {
        home(current) + "/"@ + name
    }
}

/// Where the cgroup of a run lies. `current` is the current cgroup, or nothing
/// where it is not known.
pub fn leaf_rel(priv_: bool, is_root: bool, name: &str, current: &str) -> (r: String)
    ensures
        r@ == leaf_place(priv_, is_root, name@, current@),
{
    if priv_ {
        return BASE.to_owned().concat("/").concat(name);
    }
    if is_root {
        return ROOT_BASE.to_owned().concat("/").concat(name);
    }
    let mut cur = strip(current, Margin::Slash);
    if ends_with(cur, ".scope") {
        cur = match parent_path(cur) {
            Some(p) => strip(p, Margin::Slash),
            None => "",
        };
        proof {
            reveal_strlit("");
            assert(cur@ =~= home(current@));
        }
    }
    if cur.is_empty() {
        name.to_owned()
    } else {
        cur.to_owned().concat("/").concat(name)
    }
}

/// A name is valid where it has one to 128 characters, all of them ASCII
/// letters, digits, dots, dashes or underscores, and is neither `.` nor `..`.
pub proof fn law_valid_names(name: Seq<char>)
    ensures
        name_fault(name) is None <==> {
            &&& 1 <= name.len() <= 128
            &&& forall|i: int|
                0 <= i < name.len() ==> 'A' <= (#[trigger] name[i]) <= 'Z' || 'a' <= name[i] <= 'z'
                    || '0' <= name[i] <= '9' || name[i] == '.' || name[i] == '-' || name[i] == '_'
            &&& name != seq!['.']
            &&& name != seq!['.', '.']
        },
        name_fault(name) == Some(NameError::TooLong) <==> encode_utf8(name).len() > 128,
        name_fault(name) == Some(NameError::Blank) <==> encode_utf8(name).len() <= 128 && (trimmed(
            name,
        ).len() == 0 || name == seq!['.'] || name == seq!['.', '.']),
{
    reveal_strlit(".");
    reveal_strlit("..");
    assert("."@ =~= seq!['.']);
    assert(".."@ =~= seq!['.', '.']);
    if forall|i: int|
        0 <= i < name.len() ==> 'A' <= (#[trigger] name[i]) <= 'Z' || 'a' <= name[i] <= 'z' || '0'
            <= name[i] <= '9' || name[i] == '.' || name[i] == '-' || name[i] == '_' {
        assert(is_ascii_chars(name));
        is_ascii_chars_encode_utf8(name);
        assert forall|i: int| 0 <= i < name.len() implies !is_space(#[trigger] name[i]) by {
            assert(is_name_char(name[i]));
        }
        lemma_unbroken_trimmed(name);
        assert(all_name_chars(name));
    }
    if name_fault(name) is None {
        assert forall|i: int| 0 <= i < name.len() implies 'A' <= (#[trigger] name[i]) <= 'Z' || 'a'
            <= name[i] <= 'z' || '0' <= name[i] <= '9' || name[i] == '.' || name[i] == '-'
            || name[i] == '_' by {
            assert(is_name_char(name[i]));
        }
        if name.len() == 0 {
            assert(trimmed(name) =~= name);
        }
    }
}

/// A run can be where it has a command, at most one share of the processor, and
/// on the machine all that its own limits need; what it does not ask for need
/// not be there. The first thing that it lacks is named.
pub proof fn law_requirements(
    r: RunArgs,
    controllers: Seq<Seq<char>>,
    regions: Seq<(Seq<char>, u64)>,
)
    ensures
        ({
            let dmem = r.vram_low@.len() > 0 || r.vram_max@.len() > 0;
            let cpu = r.cpu_weight is Some || r.cpu_weight_nice is Some;
            let memory = r.memory_max is Some || r.memory_high is Some || r.memory_low is Some
                || r.memory_min is Some;
            lack_of(r, controllers, regions) == if r.cmd@.len() == 0 {
                Some(Lack::Command)
            } else if r.cpu_weight is Some && r.cpu_weight_nice is Some {
                Some(Lack::OneWeight)
            } else if dmem && regions.len() == 0 {
                Some(Lack::Dmem)
            } else if cpu && !controllers.contains("cpu"@) {
                Some(Lack::Cpu)
            } else if memory && !controllers.contains("memory"@) {
                Some(Lack::Memory)
            } else {
                None
            }
        }),
{
}

/// A run needs a controller where it asks for any limit of that controller.
pub proof fn law_needs(r: RunArgs)
    ensures
        r.limits_dmem() <==> r.vram_low@.len() > 0 || r.vram_max@.len() > 0,
        r.limits_memory() <==> r.memory_max is Some || r.memory_high is Some || r.memory_low is Some
            || r.memory_min is Some,
        r.limits_cpu() <==> r.cpu_weight is Some || r.cpu_weight_nice is Some,
{
}

/// The machine has the controllers and the regions that its files list, and
/// none where a file is not there or cannot be read.
pub proof fn law_machine(data: Seq<char>)
    ensures
        controllers_in(Some(data)) == words(data),
        controllers_in(None).len() == 0,
        capacity(data) matches Ok(cap) ==> regions_in(Some(data)) == cap,
        capacity(data) is Err ==> regions_in(Some(data)).len() == 0,
        regions_in(None).len() == 0,
{
}

/// A run without privileges makes its cgroup in the current one, whatever
/// slashes stand around it; where that is a scope, in the one above it, and
/// where there is none above it, at the mount.
pub proof fn law_homes(slashes: Seq<char>, dir: Seq<char>, scope: Seq<char>)
    requires
        forall|i: int| 0 <= i < slashes.len() ==> #[trigger] slashes[i] == '/',
        dir.len() > 0,
        dir[0] != '/',
        dir.last() != '/',
        dir.last() != '.',
        is_name(scope + ".scope"@),
    ensures
        !ends(dir, ".scope"@) ==> home(slashes + dir + slashes) == dir,
        home(slashes + (dir + "/"@ + (scope + ".scope"@)) + slashes) == dir,
        home(slashes + (scope + ".scope"@) + slashes).len() == 0,
        home(slashes).len() == 0,
{
    reveal_strlit(".scope");
    reveal_strlit("/");
    let none = Seq::<char>::empty();
    let name = scope + ".scope"@;
    let deep = dir + "/"@ + name;
    law_names(name);
    assert(name[0] != '/') by {
        if name[0] == '/' {
            assert(name.contains('/'));
        }
    }
    assert(name.last() == 'e');
    law_stripping(slashes, dir, slashes, Margin::Slash);
    law_stripping(slashes, deep, slashes, Margin::Slash);
    law_stripping(slashes, name, slashes, Margin::Slash);
    law_stripping(none, dir, none, Margin::Slash);
    law_stripping(slashes, none, none, Margin::Slash);
    assert(none + dir + none =~= dir);
    assert(slashes + none + none =~= slashes);
    law_begins_and_ends(scope, ".scope"@);
    assert(deep =~= (dir + "/"@ + scope) + ".scope"@);
    law_begins_and_ends(dir + "/"@ + scope, ".scope"@);
    assert("/"@ =~= seq!['/']);
    law_name_in_directory(dir, name);
    law_stripping(none, none, none, Margin::Slash);
    assert(none + none + none =~= none);
    assert(!ends(none, ".scope"@));
}

/// A run with privileges makes its cgroup below `cgrun`, root's run below
/// `cgrun-root`, and any other in the cgroup that is its home.
pub proof fn law_leaf_places(is_root: bool, name: Seq<char>, current: Seq<char>)
    ensures
        leaf_place(true, is_root, name, current) == "cgrun"@ + "/"@ + name,
        leaf_place(false, true, name, current) == "cgrun-root"@ + "/"@ + name,
        home(current).len() > 0 ==> leaf_place(false, false, name, current) == home(current) + "/"@
            + name,
        home(current).len() == 0 ==> leaf_place(false, false, name, current) == name,
{
}

/// The tag of a transient leaf is the low sixteen bits of the time mixed with
/// the process number.
pub proof fn law_tags(pid: u32, nanos: u32)
    ensures
        leaf_tag(pid, nanos) == (nanos ^ pid) & 0xffff,
        leaf_tag(pid, nanos) <= 0xffff,
{
    assert((nanos ^ pid) & 0xffff <= 0xffff) by (bit_vector);
}

} // verus!
