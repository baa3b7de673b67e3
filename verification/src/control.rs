//! Limits on a cgroup: what to write to which of its files, and where
//! controllers must be switched on first.

use vstd::prelude::*;

use crate::cgroup::{full_cgroup_path, full_path};
use crate::dmem::{
    expand_dmem_specs, expanded, law_region_forms, limit, spaceless, Capacity, ExpandError, Limit,
    SpecError,
};
use crate::number::{decimal, lemma_decimal, show, show_signed, signed_decimal};
use crate::path::{
    join, joined, lemma_parts_placed, parent, parent_path, part_text, parts, pieces, well_placed,
    Kind,
};
use crate::size::{
    format_size, law_size_roundtrip, lemma_line_feed_trimmed, parse_size, size, size_text,
    SizeError,
};
use crate::text::{lemma_line_feed_stripped, same};

verus! {

/// What to write to a file of a cgroup.
#[derive(Debug)]
pub struct Setting {
    pub file: String,
    pub body: String,
}

/// What a `Setting` says.
pub ghost struct SettingText {
    pub file: Seq<char>,
    pub body: Seq<char>,
}

impl View for Setting {
    type V = SettingText;

    open spec fn view(&self) -> SettingText {
        SettingText { file: self.file@, body: self.body@ }
    }
}

impl DeepView for Setting {
    type V = SettingText;

    open spec fn deep_view(&self) -> SettingText {
        self@
    }
}

/// The limit on one region of device memory.
pub open spec fn dmem_setting(file: Seq<char>, region: Seq<char>, val: Option<u64>) -> SettingText {
    SettingText { file, body: region + " "@ + size_text(val) + "\n"@ }
}

/// Writes the limit on one region of device memory.
pub fn dmem_write_limit(file: &str, region: &str, val: Option<u64>) -> (r: Setting)
    ensures
        r@ == dmem_setting(file@, region@, val),
{
    let body = region.to_owned().concat(" ").concat(format_size(val).as_str()).concat("\n");
    Setting { file: file.to_owned(), body }
}

/// The limits on regions, in order.
pub open spec fn dmem_settings(file: Seq<char>, pairs: Seq<(Seq<char>, Option<u64>)>) -> Seq<
    SettingText,
> {
    Seq::new(pairs.len(), |i: int| dmem_setting(file, pairs[i].0, pairs[i].1))
}

/// Resolves limits on device memory to what has to be written. Nothing is to be
/// written where any of them is at fault.
pub fn apply_dmem_limits(file: &str, specs: &[String], cap: &Capacity) -> (r: Result<
    Vec<Setting>,
    ExpandError,
>)
    ensures
        match r {
            Ok(v) => expanded(specs.deep_view(), cap@) matches Ok(pairs) && v.deep_view()
                == dmem_settings(file@, pairs),
            Err(e) => expanded(specs.deep_view(), cap@) == Err::<
                Seq<(Seq<char>, Option<u64>)>,
                _,
            >(e),
        },
{
    let pairs = match expand_dmem_specs(specs, cap) {
        Ok(pairs) => pairs,
        Err(e) => {
            return Err(e);
        },
    };
    let ghost texts = pairs.deep_view();
    let ghost all = dmem_settings(file@, texts);
    let mut out: Vec<Setting> = Vec::new();
    let mut i: usize = 0;
    assert(out.deep_view() =~= all.take(0));
    while i < pairs.len()
        invariant
            i <= pairs.len() == all.len(),
            texts == pairs.deep_view(),
            all == dmem_settings(file@, texts),
            out.deep_view() == all.take(i as int),
        decreases pairs.len() - i,
    {
        let ghost sofar = out.deep_view();
        assert(texts[i as int] == (pairs@[i as int].0@, pairs@[i as int].1));
        let s = dmem_write_limit(file, pairs[i].0.as_str(), pairs[i].1);
        let ghost t = s@;
        out.push(s);
        assert(out.deep_view() =~= sofar.push(t));
        assert(out.deep_view() =~= all.take(i + 1));
        i = i + 1;
    }
    assert(all.take(i as int) =~= all);
    Ok(out)
}

/// Whether the memory controller is among those there are.
pub fn memory_available(controllers: &[String]) -> (r: bool)
    ensures
        r == controllers.deep_view().contains("memory"@),
{
    has_controller(controllers, "memory")
}

/// Whether a controller is among those there are.
pub fn has_controller(controllers: &[String], name: &str) -> (r: bool)
    ensures
        r == controllers.deep_view().contains(name@),
{
    let ghost texts = controllers.deep_view();
    let mut i: usize = 0;
    while i < controllers.len()
        invariant
            i <= controllers.len(),
            texts == controllers.deep_view(),
            forall|j: int| 0 <= j < i ==> #[trigger] texts[j] != name@,
        decreases controllers.len() - i,
    {
        assert(texts[i as int] == controllers@[i as int]@);
        if same(controllers[i].as_str(), name) {
            return true;
        }
        i = i + 1;
    }
    false
}

/// The limit that a size sets on system memory.
pub open spec fn memory_setting(file: Seq<char>, v: Option<u64>) -> SettingText {
    SettingText { file, body: size_text(v) + "\n"@ }
}

/// Reads a size as a limit on system memory.
pub open spec fn memory_limit(file: Seq<char>, raw: Seq<char>) -> Result<SettingText, SizeError> {
    match size(raw) {
        Ok(v) => Ok(memory_setting(file, v)),
        Err(e) => Err(e),
    }
}

/// A limit on system memory, in the file that is named.
pub fn set_memory_limit(file: &str, raw: &str) -> (r: Result<Setting, SizeError>)
    ensures
        match r {
            Ok(s) => memory_limit(file@, raw@) == Ok::<_, SizeError>(s@),
            Err(e) => memory_limit(file@, raw@) == Err::<SettingText, _>(e),
        },
{
    match parse_size(raw) {
        Ok(v) => Ok(Setting { file: file.to_owned(), body: format_size(v).concat("\n") }),
        Err(e) => Err(e),
    }
}

/// The hard limit on system memory.
pub fn set_memory_max(raw: &str) -> (r: Result<Setting, SizeError>)
    ensures
        match r {
            Ok(s) => memory_limit("memory.max"@, raw@) == Ok::<_, SizeError>(s@),
            Err(e) => memory_limit("memory.max"@, raw@) == Err::<SettingText, _>(e),
        },
{
    set_memory_limit("memory.max", raw)
}

/// The boundary above which system memory is throttled.
pub fn set_memory_high(raw: &str) -> (r: Result<Setting, SizeError>)
    ensures
        match r {
            Ok(s) => memory_limit("memory.high"@, raw@) == Ok::<_, SizeError>(s@),
            Err(e) => memory_limit("memory.high"@, raw@) == Err::<SettingText, _>(e),
        },
{
    set_memory_limit("memory.high", raw)
}

/// The system memory that is protected.
pub fn set_memory_low(raw: &str) -> (r: Result<Setting, SizeError>)
    ensures
        match r {
            Ok(s) => memory_limit("memory.low"@, raw@) == Ok::<_, SizeError>(s@),
            Err(e) => memory_limit("memory.low"@, raw@) == Err::<SettingText, _>(e),
        },
{
    set_memory_limit("memory.low", raw)
}

/// The system memory that is protected at all costs.
pub fn set_memory_min(raw: &str) -> (r: Result<Setting, SizeError>)
    ensures
        match r {
            Ok(s) => memory_limit("memory.min"@, raw@) == Ok::<_, SizeError>(s@),
            Err(e) => memory_limit("memory.min"@, raw@) == Err::<SettingText, _>(e),
        },
{
    set_memory_limit("memory.min", raw)
}

/// A share of the processor is out of its range.
#[derive(Clone, Copy, Debug, PartialEq, Eq, Structural)]
pub enum CpuError {
    /// A weight outside 1 to 10000.
    Weight,
    /// A nice value outside -20 to 19.
    Nice,
}

/// The share of the processor, as a weight from 1 to 10000.
pub open spec fn cpu_weight(weight: u32) -> Result<SettingText, CpuError> {
    if 1 <= weight <= 10000 {
        Ok(SettingText { file: "cpu.weight"@, body: decimal(weight as nat) })
    } else {
        Err(CpuError::Weight)
    }
}

/// The share of the processor, as a nice value from -20 to 19.
pub open spec fn cpu_weight_nice(nice: i32) -> Result<SettingText, CpuError> {
    if -20 <= nice <= 19 {
        Ok(SettingText { file: "cpu.weight.nice"@, body: signed_decimal(nice as int) })
    } else {
        Err(CpuError::Nice)
    }
}

/// The share of the processor, as a weight.
pub fn set_cpu_weight(weight: u32) -> (r: Result<Setting, CpuError>)
    ensures
        match r {
            Ok(s) => cpu_weight(weight) == Ok::<_, CpuError>(s@),
            Err(e) => cpu_weight(weight) == Err::<SettingText, _>(e),
        },
{
    if weight < 1 || weight > 10000 {
        return Err(CpuError::Weight);
    }
    Ok(Setting { file: "cpu.weight".to_owned(), body: show(weight as u64) })
}

/// The share of the processor, as a nice value.
pub fn set_cpu_weight_nice(nice: i32) -> (r: Result<Setting, CpuError>)
    ensures
        match r {
            Ok(s) => cpu_weight_nice(nice) == Ok::<_, CpuError>(s@),
            Err(e) => cpu_weight_nice(nice) == Err::<SettingText, _>(e),
        },
{
    if nice < -20 || nice > 19 {
        return Err(CpuError::Nice);
    }
    Ok(Setting { file: "cpu.weight.nice".to_owned(), body: show_signed(nice) })
}

/// The first `k` components of `p` as a path.
pub open spec fn first_names(p: Seq<char>, k: int) -> Seq<char>
    decreases k,
{
    if k <= 0 {
        Seq::empty()
    } else {
        joined(first_names(p, k - 1), part_text(p, parts(p)[k - 1]))
    }
}

/// How many components of `p` are names before one is not.
pub open spec fn leading_names(p: Seq<char>, k: int) -> int
    decreases parts(p).len() - k,
{
    if 0 <= k < parts(p).len() && parts(p)[k].kind == Kind::Name {
        leading_names(p, k + 1)
    } else {
        k
    }
}

/// The path above `rel`, or nothing.
pub open spec fn parent_or_empty(rel: Seq<char>) -> Seq<char> {
    match parent(rel) {
        Some(p) => p,
        None => Seq::empty(),
    }
}

/// The first `1 + k` directories at which controllers are to be switched on for
/// the cgroup `rel`: the mount, then the ancestors of `rel` from the top down.
pub open spec fn hierarchy(mount: Seq<char>, rel: Seq<char>, k: int) -> Seq<Seq<char>>
    decreases k,
{
    if k <= 0 {
        seq![mount]
    } else {
        hierarchy(mount, rel, k - 1).push(
            full_path(mount, first_names(parent_or_empty(rel), k)),
        )
    }
}

/// Where to switch controllers on for a cgroup.
#[derive(Debug)]
pub struct Hierarchy {
    /// The directories, from the top down. The first is the mount; of the
    /// others only those that are there count.
    pub dirs: Vec<String>,
    /// Whether the path above the cgroup is made of names alone. Where it is
    /// not, the directories above the first component at fault are listed.
    pub sound: bool,
}

/// Where controllers must be switched on, from the top down, so that the cgroup
/// `rel` can use them: at the mount and at every ancestor of `rel`.
pub fn ensure_control_hierarchy(mount: &str, rel: &str) -> (r: Hierarchy)
    ensures
        ({
            let above = parent_or_empty(rel@);
            let k = leading_names(above, 0);
            &&& r.dirs.deep_view() == hierarchy(mount@, rel@, k)
            &&& r.sound == (k == parts(above).len())
        }),
{
    let mut dirs: Vec<String> = Vec::new();
    let root = mount.to_owned();
    let ghost top = root@;
    dirs.push(root);
    assert(dirs.deep_view() =~= seq![top]);
    let above: String = match parent_path(rel) {
        Some(p) => p.to_owned(),
        None => String::new(),
    };
    let ghost path = above@;
    let xs = pieces(above.as_str());
    proof {
        lemma_parts_placed(path);
    }
    let mut acc = String::new();
    let mut i: usize = 0;
    while i < xs.len() && xs[i].kind == Kind::Name
        invariant
            i <= xs.len(),
            path == above@,
            path == parent_or_empty(rel@),
            xs.deep_view() == parts(path),
            well_placed(path, parts(path), 0),
            acc@ == first_names(path, i as int),
            dirs.deep_view() == hierarchy(mount@, rel@, i as int),
            leading_names(path, i as int) == leading_names(path, 0),
        decreases xs.len() - i,
    {
        assert(xs.deep_view()[i as int] == xs@[i as int]@);
        let name = above.as_str().substring_char(xs[i].start, xs[i].end);
        acc = join(acc.as_str(), name);
        let dir = full_cgroup_path(mount, acc.as_str());
        let ghost sofar = dirs.deep_view();
        let ghost d = dir@;
        dirs.push(dir);
        assert(dirs.deep_view() =~= sofar.push(d));
        i = i + 1;
    }
    proof {
        assert(xs.deep_view().len() == parts(path).len());
        if i < xs.len() {
            assert(xs.deep_view()[i as int] == xs@[i as int]@);
        }
    }
    Hierarchy { dirs, sound: i == xs.len() }
}

/// Whether the `k`th of a list of directories is there. What the list of flags
/// does not speak of is not.
pub open spec fn is_there(exists: Seq<bool>, k: int) -> bool {
    0 <= k < exists.len() && exists[k]
}

/// Those of the first `n` directories at which controllers are switched on: the
/// mount, and of the others those that are there.
pub open spec fn dirs_there_to(dirs: Seq<Seq<char>>, exists: Seq<bool>, n: int) -> Seq<Seq<char>>
    decreases n,
{
    if n <= 0 {
        Seq::empty()
    } else if n == 1 || is_there(exists, n - 1) {
        dirs_there_to(dirs, exists, n - 1).push(dirs[n - 1])
    } else {
        dirs_there_to(dirs, exists, n - 1)
    }
}

/// The directories of a hierarchy at which controllers are switched on.
pub fn dirs_there(h: &Hierarchy, exists: &[bool]) -> (r: Vec<String>)
    ensures
        r.deep_view() == dirs_there_to(h.dirs.deep_view(), exists@, h.dirs@.len() as int),
{
    let ghost texts = h.dirs.deep_view();
    let mut r: Vec<String> = Vec::new();
    let mut i: usize = 0;
    assert(r.deep_view() =~= Seq::empty());
    while i < h.dirs.len()
        invariant
            i <= h.dirs.len(),
            texts == h.dirs.deep_view(),
            r.deep_view() == dirs_there_to(texts, exists@, i as int),
        decreases h.dirs.len() - i,
    {
        if i == 0 || (i < exists.len() && exists[i]) {
            let ghost sofar = r.deep_view();
            let d = h.dirs[i].clone();
            let ghost t = d@;
            assert(t == texts[i as int]);
            r.push(d);
            assert(r.deep_view() =~= sofar.push(t));
        }
        i = i + 1;
    }
    r
}

/// What is written as a limit on system memory reads back as the size that was
/// asked for.
pub proof fn law_memory_limit_reads_back(file: Seq<char>, raw: Seq<char>)
    requires
        size(raw) is Ok,
    ensures
        memory_limit(file, raw) matches Ok(s) && size(s.body) == size(raw),
{
    let v = size(raw)->Ok_0;
    law_size_roundtrip(v);
    lemma_line_feed_trimmed(size_text(v));
}

/// What is written as a limit on a region of device memory reads back as that
/// limit on that region.
pub proof fn law_dmem_limit_reads_back(file: Seq<char>, region: Seq<char>, val: Option<u64>)
    requires
        region.contains('/'),
        spaceless(region),
    ensures
        limit(dmem_setting(file, region, val).body) == Ok::<Limit, SpecError>(
            Limit { region: Some(region), value: val },
        ),
{
    reveal_strlit(" ");
    reveal_strlit("\n");
    let t = size_text(val);
    law_size_roundtrip(val);
    assert(spaceless(t)) by {
        match val {
            Some(n) => {
                lemma_decimal(n as nat);
            },
            None => {
                reveal_strlit("max");
            },
        }
    }
    law_region_forms(region, t, val);
    let s = region + seq![' '] + t;
    assert(dmem_setting(file, region, val).body =~= s + seq!['\n']);
    lemma_line_feed_stripped(s);
}

/// A share of the processor is written as it was asked for where it is in its
/// range, and refused where it is not.
pub proof fn law_shares(weight: u32, nice: i32)
    ensures
        1 <= weight <= 10000 ==> cpu_weight(weight) == Ok::<SettingText, CpuError>(
            SettingText { file: "cpu.weight"@, body: decimal(weight as nat) },
        ),
        weight < 1 || weight > 10000 ==> cpu_weight(weight) == Err::<SettingText, CpuError>(
            CpuError::Weight,
        ),
        -20 <= nice <= 19 ==> cpu_weight_nice(nice) == Ok::<SettingText, CpuError>(
            SettingText { file: "cpu.weight.nice"@, body: signed_decimal(nice as int) },
        ),
        nice < -20 || nice > 19 ==> cpu_weight_nice(nice) == Err::<SettingText, CpuError>(
            CpuError::Nice,
        ),
{
}

/// A limit on system memory is the bytes that it comes to, or `max`, and a line
/// feed, in the file that is named; what is no size is none.
pub proof fn law_memory_limits(file: Seq<char>, raw: Seq<char>)
    ensures
        memory_limit(file, raw) == match size(raw) {
            Ok(Some(n)) => Ok::<SettingText, SizeError>(
                SettingText { file, body: decimal(n as nat) + "\n"@ },
            ),
            Ok(None) => Ok(SettingText { file, body: "max"@ + "\n"@ }),
            Err(e) => Err(e),
        },
{
}

/// Each limit on device memory is written for its region: the region, a blank,
/// the bytes or `max`, and a line feed, all of them in their order.
pub proof fn law_dmem_limits(file: Seq<char>, pairs: Seq<(Seq<char>, Option<u64>)>, i: int)
    requires
        0 <= i < pairs.len(),
    ensures
        dmem_settings(file, pairs).len() == pairs.len(),
        dmem_settings(file, pairs)[i] == (SettingText {
            file,
            body: pairs[i].0 + " "@ + (match pairs[i].1 {
                Some(n) => decimal(n as nat),
                None => "max"@,
            }) + "\n"@,
        }),
{
}

proof fn lemma_dirs_there(dirs: Seq<Seq<char>>, exists: Seq<bool>, n: int)
    requires
        0 <= n <= dirs.len(),
    ensures
        dirs_there_to(dirs, exists, n) == Seq::new(n as nat, |i: int| i).filter(
            |i: int| i == 0 || (i < exists.len() && exists[i]),
        ).map_values(|i: int| dirs[i]),
    decreases n,
{
    reveal(Seq::filter);
    let p = |i: int| i == 0 || (i < exists.len() && exists[i]);
    let f = |i: int| dirs[i];
    let all = Seq::new(n as nat, |i: int| i);
    if n > 0 {
        let before = Seq::new((n - 1) as nat, |i: int| i);
        lemma_dirs_there(dirs, exists, n - 1);
        assert(all.drop_last() =~= before);
        assert(all.last() == n - 1);
        if p(n - 1) {
            assert(all.filter(p) == before.filter(p).push(n - 1));
            assert(all.filter(p).map_values(f) =~= before.filter(p).map_values(f).push(
                dirs[n - 1],
            ));
        }
    } else {
        assert(all.filter(p).map_values(f) =~= Seq::empty());
    }
}

/// Controllers are switched on at the mount, whether or not it is said to be
/// there, and at exactly those of the other directories that are there, in
/// their order.
pub proof fn law_only_dirs_there(dirs: Seq<Seq<char>>, exists: Seq<bool>)
    ensures
        dirs_there_to(dirs, exists, dirs.len() as int) == Seq::new(dirs.len(), |i: int| i).filter(
            |i: int| i == 0 || (i < exists.len() && exists[i]),
        ).map_values(|i: int| dirs[i]),
{
    lemma_dirs_there(dirs, exists, dirs.len() as int);
}

} // verus!
