//! Device memory: the regions that a machine has, and limits on them.

use vstd::prelude::*;

use crate::number::{
    alike, decimal, fold, is_digit, lemma_decimal, parse_unsigned, unsigned, within,
};
use crate::size::{digits_end, lemma_digits_end, multiplier, parse_size, size, SizeError};
use crate::text::{
    chars, chomped, has_char, is_space, law_chomped, law_first_line, law_last_line, law_more_lines,
    law_stripping, law_words_of_trimmed, lines, one_line, same, space_from, split_lines,
    split_words, trim, trimmed, words, words_from, Margin,
};

verus! {

/// A region of device memory and its size in bytes.
#[derive(Debug)]
pub struct Region {
    pub name: String,
    pub size: u64,
}

/// The regions of device memory, each once, in the order in which they were
/// first named.
#[derive(Debug)]
pub struct Capacity {
    regions: Vec<Region>,
}

impl View for Capacity {
    type V = Seq<(Seq<char>, u64)>;

    closed spec fn view(&self) -> Seq<(Seq<char>, u64)> {
        regions_of(self.regions@)
    }
}

/// Whether a region of that name is among `cap`.
pub open spec fn has_region(cap: Seq<(Seq<char>, u64)>, name: Seq<char>) -> bool {
    exists|i: int| 0 <= i < cap.len() && (#[trigger] cap[i]).0 == name
}

/// Whether every region has a name of its own.
pub open spec fn distinct(cap: Seq<(Seq<char>, u64)>) -> bool {
    forall|i: int, j: int| 0 <= i < j < cap.len() ==> (#[trigger] cap[i]).0 != (#[trigger] cap[j]).0
}

/// `cap` with the size of one region set: the region keeps its place where it
/// is there, and comes last where it is new.
pub open spec fn with_region(cap: Seq<(Seq<char>, u64)>, name: Seq<char>, size: u64) -> Seq<
    (Seq<char>, u64),
> {
    if has_region(cap, name) {
        Seq::new(
            cap.len(),
            |i: int|
                if cap[i].0 == name {
                    (name, size)
                } else {
                    cap[i]
                },
        )
    } else {
        cap.push((name, size))
    }
}

/// The regions in a list of them, with their sizes.
pub open spec fn regions_of(regions: Seq<Region>) -> Seq<(Seq<char>, u64)> {
    Seq::new(regions.len(), |i: int| (regions[i].name@, regions[i].size))
}

impl Capacity {
    #[verifier::type_invariant]
    spec fn names_differ(self) -> bool {
        distinct(regions_of(self.regions@))
    }

    /// No regions.
    pub fn new() -> (r: Self)
        ensures
            r@ == Seq::<(Seq<char>, u64)>::empty(),
    {
        let r = Capacity { regions: Vec::new() };
        assert(r@ =~= Seq::empty());
        r
    }

    /// Whether there is no region.
    pub fn is_empty(&self) -> (r: bool)
        ensures
            r == (self@.len() == 0),
    {
        self.regions.len() == 0
    }

    /// The number of regions.
    pub fn len(&self) -> (r: usize)
        ensures
            r == self@.len(),
    {
        self.regions.len()
    }

    /// The name of the region in place `i`.
    pub fn name(&self, i: usize) -> (r: &str)
        requires
            i < self@.len(),
        ensures
            r@ == self@[i as int].0,
    {
        self.regions[i].name.as_str()
    }

    /// The size of the region in place `i`, in bytes.
    pub fn size(&self, i: usize) -> (r: u64)
        requires
            i < self@.len(),
        ensures
            r == self@[i as int].1,
    {
        self.regions[i].size
    }

    /// Where the region of that name stands.
    fn position(&self, name: &str) -> (r: Option<usize>)
        ensures
            match r {
                Some(i) => i < self@.len() && self@[i as int].0 == name@,
                None => !has_region(self@, name@),
            },
    {
        let mut i: usize = 0;
        while i < self.regions.len()
            invariant
                i <= self.regions.len() == self@.len(),
                forall|j: int| 0 <= j < i ==> (#[trigger] self@[j]).0 != name@,
            decreases self.regions.len() - i,
        {
            if same(self.regions[i].name.as_str(), name) {
                return Some(i);
            }
            i = i + 1;
        }
        None
    }

    /// Whether there is a region of that name.
    pub fn contains(&self, name: &str) -> (r: bool)
        ensures
            r == has_region(self@, name@),
    {
        self.position(name).is_some()
    }

    /// Sets the size of a region.
    pub fn insert(&mut self, name: String, size: u64)
        ensures
            final(self)@ == with_region(old(self)@, name@, size),
    {
        proof {
            use_type_invariant(&*self);
        }
        let ghost before = self@;
        let ghost key = name@;
        let place = self.position(name.as_str());
        let mut regions: Vec<Region> = Vec::new();
        std::mem::swap(&mut regions, &mut self.regions);
        match place {
            Some(i) => {
                regions.set(i, Region { name, size });
                assert(regions_of(regions@) =~= with_region(before, key, size));
            },
            None => {
                regions.push(Region { name, size });
                assert(regions_of(regions@) =~= before.push((key, size)));
            },
        }
        self.regions = regions;
    }
}

/// Why a list of regions cannot be read.
#[derive(Clone, Copy, Debug, PartialEq, Eq, Structural)]
pub enum CapacityError {
    /// A line names a region and nothing else.
    MissingSize,
    /// A region's size is no number of at most 64 bits.
    BadSize,
}

/// The regions after one more line: `<region> <size>`, or nothing.
pub open spec fn capacity_line(cap: Seq<(Seq<char>, u64)>, line: Seq<char>) -> Result<
    Seq<(Seq<char>, u64)>,
    CapacityError,
> {
    let w = words(trimmed(line));
    if w.len() == 0 {
        Ok(cap)
    } else if w.len() == 1 {
        Err(CapacityError::MissingSize)
    } else {
        match within(unsigned(w[1]), u64::MAX as nat) {
            Some(n) => Ok(with_region(cap, w[0], n as u64)),
            None => Err(CapacityError::BadSize),
        }
    }
}

/// The regions that the first `n` lines name. The first line that cannot be
/// read decides.
pub open spec fn capacity_lines(ls: Seq<Seq<char>>, n: int) -> Result<
    Seq<(Seq<char>, u64)>,
    CapacityError,
>
    decreases n,
{
    if n <= 0 {
        Ok(Seq::empty())
    } else {
        match capacity_lines(ls, n - 1) {
            Ok(cap) => capacity_line(cap, ls[n - 1]),
            Err(e) => Err(e),
        }
    }
}

/// The regions that a list of them names.
pub open spec fn capacity(data: Seq<char>) -> Result<Seq<(Seq<char>, u64)>, CapacityError> {
    capacity_lines(lines(data), lines(data).len() as int)
}

proof fn lemma_capacity_error_stays(ls: Seq<Seq<char>>, n: int, m: int)
    requires
        0 <= n <= m,
        capacity_lines(ls, n) is Err,
    ensures
        capacity_lines(ls, m) == capacity_lines(ls, n),
    decreases m - n,
{
    if n < m {
        lemma_capacity_error_stays(ls, n, m - 1);
    }
}

/// Reads the regions of device memory from the text of `dmem.capacity`; `None`
/// stands for a file that is not there.
pub fn read_dmem_capacity(data: Option<&str>) -> (r: Result<Capacity, CapacityError>)
    ensures
        match data {
            None => r matches Ok(cap) && cap@.len() == 0,
            Some(d) => match r {
                Ok(cap) => capacity(d@) == Ok::<_, CapacityError>(cap@),
                Err(e) => capacity(d@) == Err::<Seq<(Seq<char>, u64)>, _>(e),
            },
        },
{
    let text = match data {
        Some(d) => d,
        None => {
            return Ok(Capacity::new());
        },
    };
    let ls = split_lines(text);
    let mut cap = Capacity::new();
    let mut i: usize = 0;
    while i < ls.len()
        invariant
            data == Some(text),
            i <= ls.len(),
            ls.deep_view() == lines(text@),
            capacity_lines(lines(text@), i as int) == Ok::<_, CapacityError>(cap@),
        decreases ls.len() - i,
    {
        let line = trim(ls[i]);
        let w = split_words(line);
        proof {
            assert(ls.deep_view()[i as int] == ls@[i as int]@);
            assert(w.deep_view().len() == w@.len());
            if capacity_lines(lines(text@), i + 1) is Err {
                lemma_capacity_error_stays(lines(text@), i + 1, lines(text@).len() as int);
            }
        }
        if w.len() > 0 {
            if w.len() == 1 {
                return Err(CapacityError::MissingSize);
            }
            assert(w.deep_view()[0] == w@[0]@);
            assert(w.deep_view()[1] == w@[1]@);
            match parse_unsigned(w[1], 18446744073709551615) {
                Some(n) => {
                    cap.insert(w[0].to_owned(), n);
                },
                None => {
                    return Err(CapacityError::BadSize);
                },
            }
        }
        i = i + 1;
    }
    Ok(cap)
}

/// One limit on device memory: on a region, or on every region.
#[derive(Debug)]
pub struct DmemSpec {
    /// The region, or `None` for all of them.
    pub region: Option<String>,
    /// The limit in bytes, or `None` for `max`.
    pub value: Option<u64>,
}

/// What a `DmemSpec` says.
pub ghost struct Limit {
    pub region: Option<Seq<char>>,
    pub value: Option<u64>,
}

impl View for DmemSpec {
    type V = Limit;

    open spec fn view(&self) -> Limit {
        Limit {
            region: match self.region {
                Some(r) => Some(r@),
                None => None,
            },
            value: self.value,
        }
    }
}

impl Clone for DmemSpec {
    fn clone(&self) -> (r: Self)
        ensures
            r@ == self@,
    {
        DmemSpec {
            region: match &self.region {
                Some(s) => Some(s.clone()),
                None => None,
            },
            value: self.value,
        }
    }
}

/// Why a text is no limit on device memory.
#[derive(Clone, Copy, Debug, PartialEq, Eq, Structural)]
pub enum SpecError {
    /// Nothing but white space.
    Empty,
    /// Neither a size nor a region with a size.
    Malformed,
    /// The size that goes with a region is none.
    Size(SizeError),
}

/// The last position before `n` that holds a `:` or a `=`.
pub open spec fn separator_before(s: Seq<char>, n: int) -> Option<int>
    decreases n,
{
    if n <= 0 {
        None
    } else if s[n - 1] == ':' || s[n - 1] == '=' {
        Some(n - 1)
    } else {
        separator_before(s, n - 1)
    }
}

/// The limit on one region.
pub open spec fn limit_on(region: Seq<char>, raw: Seq<char>) -> Result<Limit, SpecError> {
    match size(raw) {
        Ok(value) => Ok(Limit { region: Some(region), value }),
        Err(e) => Err(SpecError::Size(e)),
    }
}

/// The limit on every region.
pub open spec fn limit_on_all(raw: Seq<char>) -> Result<Limit, SpecError> {
    match size(raw) {
        Ok(value) => Ok(Limit { region: None, value }),
        Err(_) => Err(SpecError::Malformed),
    }
}

/// What a text says of a limit: `<size>`, `<region> <size>`, `<region>:<size>`
/// or `<region>=<size>`. A region holds a slash, and may hold colons: the last
/// separator parts it from the size.
pub open spec fn limit(raw: Seq<char>) -> Result<Limit, SpecError> {
    let s = trimmed(raw);
    let w = words(s);
    if s.len() == 0 {
        Err(SpecError::Empty)
    } else if w.len() == 2 && w[0].contains('/') {
        limit_on(w[0], w[1])
    } else if w.len() > 1 {
        Err(SpecError::Malformed)
    } else {
        match separator_before(s, s.len() as int) {
            Some(i) => if s.take(i).contains('/') {
                limit_on(s.take(i), s.skip(i + 1))
            } else {
                limit_on_all(s)
            },
            None => limit_on_all(s),
        }
    }
}

/// Splits a text at its last `:` or `=`.
pub fn split_at_separator<'a>(s: &'a str) -> (r: Option<(&'a str, &'a str)>)
    ensures
        match r {
            Some((left, right)) => separator_before(s@, s@.len() as int) matches Some(i) && left@
                == s@.take(i) && right@ == s@.skip(i + 1),
            None => separator_before(s@, s@.len() as int) is None,
        },
{
    let cs = chars(s);
    let n = cs.len();
    let mut i: usize = n;
    while i > 0 && cs[i - 1] != ':' && cs[i - 1] != '='
        invariant
            i <= n == cs.len(),
            cs@ == s@,
            separator_before(s@, i as int) == separator_before(s@, n as int),
        decreases i,
    {
        i = i - 1;
    }
    if i == 0 {
        return None;
    }
    let left = s.substring_char(0, i - 1);
    let right = s.substring_char(i, n);
    assert(left@ =~= s@.take(i - 1));
    assert(right@ =~= s@.skip(i as int));
    Some((left, right))
}

/// Reads the limit on one region.
fn parse_limit_on(region: &str, raw: &str) -> (r: Result<DmemSpec, SpecError>)
    ensures
        match r {
            Ok(d) => limit_on(region@, raw@) == Ok::<_, SpecError>(d@),
            Err(e) => limit_on(region@, raw@) == Err::<Limit, _>(e),
        },
{
    match parse_size(raw) {
        Ok(value) => Ok(DmemSpec { region: Some(region.to_owned()), value }),
        Err(e) => Err(SpecError::Size(e)),
    }
}

/// Reads one limit on device memory: `7G` for all regions, or `<region> 7G`,
/// `<region>:7G` or `<region>=max` for one.
pub fn parse_dmem_spec(raw: &str) -> (r: Result<DmemSpec, SpecError>)
    ensures
        match r {
            Ok(d) => limit(raw@) == Ok::<_, SpecError>(d@),
            Err(e) => limit(raw@) == Err::<Limit, _>(e),
        },
{
    let s = trim(raw);
    if s.is_empty() {
        return Err(SpecError::Empty);
    }
    let w = split_words(s);
    assert(w.deep_view().len() == w@.len());
    if w.len() == 2 {
        assert(w.deep_view()[0] == w@[0]@);
        assert(w.deep_view()[1] == w@[1]@);
        if has_char(w[0], '/') {
            return parse_limit_on(w[0], w[1]);
        }
    }
    if w.len() > 1 {
        return Err(SpecError::Malformed);
    }
    if let Some((left, right)) = split_at_separator(s) {
        if has_char(left, '/') {
            return parse_limit_on(left, right);
        }
    }
    match parse_size(s) {
        Ok(value) => Ok(DmemSpec { region: None, value }),
        Err(_) => Err(SpecError::Malformed),
    }
}

/// Why limits on device memory cannot be resolved. `at` is the place of the
/// text at fault.
#[derive(Clone, Copy, Debug, PartialEq, Eq, Structural)]
pub enum ExpandError {
    /// There are no regions.
    NoRegions,
    /// A text is no limit.
    Spec { at: usize, error: SpecError },
    /// A text names a region that is not there.
    UnknownRegion { at: usize },
}

/// One limit per region.
pub open spec fn on_every_region(cap: Seq<(Seq<char>, u64)>, value: Option<u64>) -> Seq<
    (Seq<char>, Option<u64>),
> {
    Seq::new(cap.len(), |i: int| (cap[i].0, value))
}

/// Whether a text is a limit on every region.
pub open spec fn is_bare_size(raw: Seq<char>) -> bool {
    limit(raw) matches Ok(l) && l.region is None
}

/// Whether limits name each region once, and no other.
pub open spec fn each_once(
    pairs: Seq<(Seq<char>, Option<u64>)>,
    cap: Seq<(Seq<char>, u64)>,
) -> bool {
    &&& forall|i: int, j: int|
        0 <= i < j < pairs.len() ==> (#[trigger] pairs[i]).0 != (#[trigger] pairs[j]).0
    &&& forall|name: Seq<char>| #[trigger]
        has_region(cap, name) <==> exists|i: int|
            0 <= i < pairs.len() && (#[trigger] pairs[i]).0 == name
}

proof fn lemma_each_once(cap: Seq<(Seq<char>, u64)>, value: Option<u64>)
    requires
        distinct(cap),
    ensures
        each_once(on_every_region(cap, value), cap),
{
    let pairs = on_every_region(cap, value);
    assert forall|i: int, j: int| 0 <= i < j < pairs.len() implies (#[trigger] pairs[i]).0 != (
    #[trigger] pairs[j]).0 by {
        assert(cap[i].0 != cap[j].0);
    }
    assert forall|name: Seq<char>| #[trigger] has_region(cap, name) <==> exists|i: int|
        0 <= i < pairs.len() && (#[trigger] pairs[i]).0 == name by {
        if has_region(cap, name) {
            let i = choose|i: int| 0 <= i < cap.len() && (#[trigger] cap[i]).0 == name;
            assert(pairs[i].0 == name);
        }
        if exists|i: int| 0 <= i < pairs.len() && (#[trigger] pairs[i]).0 == name {
            let i = choose|i: int| 0 <= i < pairs.len() && (#[trigger] pairs[i]).0 == name;
            assert(cap[i].0 == name);
        }
    }
}

/// The regions and limits that one text stands for.
pub open spec fn expanded_one(raw: Seq<char>, at: usize, cap: Seq<(Seq<char>, u64)>) -> Result<
    Seq<(Seq<char>, Option<u64>)>,
    ExpandError,
> {
    match limit(raw) {
        Err(error) => Err(ExpandError::Spec { at, error }),
        Ok(l) => match l.region {
            None => Ok(on_every_region(cap, l.value)),
            Some(region) => if has_region(cap, region) {
                Ok(seq![(region, l.value)])
            } else {
                Err(ExpandError::UnknownRegion { at })
            },
        },
    }
}

/// The regions and limits that the first `n` texts stand for. The first text
/// at fault decides.
pub open spec fn expanded_to(
    specs: Seq<Seq<char>>,
    cap: Seq<(Seq<char>, u64)>,
    n: int,
) -> Result<Seq<(Seq<char>, Option<u64>)>, ExpandError>
    decreases n,
{
    if n <= 0 {
        Ok(Seq::empty())
    } else {
        match expanded_to(specs, cap, n - 1) {
            Err(e) => Err(e),
            Ok(out) => match expanded_one(specs[n - 1], (n - 1) as usize, cap) {
                Err(e) => Err(e),
                Ok(more) => Ok(out + more),
            },
        }
    }
}

/// The regions and limits that texts stand for.
pub open spec fn expanded(specs: Seq<Seq<char>>, cap: Seq<(Seq<char>, u64)>) -> Result<
    Seq<(Seq<char>, Option<u64>)>,
    ExpandError,
> {
    if cap.len() == 0 {
        Err(ExpandError::NoRegions)
    } else {
        expanded_to(specs, cap, specs.len() as int)
    }
}

proof fn lemma_expand_error_stays(
    specs: Seq<Seq<char>>,
    cap: Seq<(Seq<char>, u64)>,
    n: int,
    m: int,
)
    requires
        0 <= n <= m,
        expanded_to(specs, cap, n) is Err,
    ensures
        expanded_to(specs, cap, m) == expanded_to(specs, cap, n),
    decreases m - n,
{
    if n < m {
        lemma_expand_error_stays(specs, cap, n, m - 1);
    }
}

/// Resolves limits to regions; a bare size goes to every region, to each once.
pub fn expand_dmem_specs(specs: &[String], cap: &Capacity) -> (r: Result<
    Vec<(String, Option<u64>)>,
    ExpandError,
>)
    ensures
        match r {
            Ok(v) => expanded(specs.deep_view(), cap@) == Ok::<_, ExpandError>(v.deep_view()),
            Err(e) => expanded(specs.deep_view(), cap@) == Err::<
                Seq<(Seq<char>, Option<u64>)>,
                _,
            >(e),
        },
        forall|value: Option<u64>| each_once(#[trigger] on_every_region(cap@, value), cap@),
        specs@.len() == 1 && cap@.len() > 0 && is_bare_size(specs@[0]@) ==> (r matches Ok(v)
            && each_once(v.deep_view(), cap@)),
{
    proof {
        use_type_invariant(cap);
        assert forall|value: Option<u64>| each_once(
            #[trigger] on_every_region(cap@, value),
            cap@,
        ) by {
            lemma_each_once(cap@, value);
        }
        if specs@.len() == 1 {
            let raw = specs.deep_view()[0];
            assert(raw == specs@[0]@);
            if let Ok(l) = limit(raw) {
                if l.region is None {
                    let all = on_every_region(cap@, l.value);
                    assert(expanded_to(specs.deep_view(), cap@, 0) == Ok::<_, ExpandError>(
                        Seq::<(Seq<char>, Option<u64>)>::empty(),
                    ));
                    assert(Seq::<(Seq<char>, Option<u64>)>::empty() + all =~= all);
                    assert(expanded_to(specs.deep_view(), cap@, 1) == Ok::<_, ExpandError>(all));
                }
            }
        }
    }
    if cap.is_empty() {
        return Err(ExpandError::NoRegions);
    }
    let ghost raws = specs.deep_view();
    let mut out: Vec<(String, Option<u64>)> = Vec::new();
    let mut i: usize = 0;
    assert(out.deep_view() =~= Seq::empty());
    while i < specs.len()
        invariant
            i <= specs.len() == raws.len(),
            raws == specs.deep_view(),
            cap@.len() > 0,
            forall|value: Option<u64>| each_once(#[trigger] on_every_region(cap@, value), cap@),
            specs@.len() == 1 && is_bare_size(specs@[0]@) ==> (expanded_to(
                raws,
                cap@,
                1,
            ) matches Ok(all) && each_once(all, cap@)),
            expanded_to(raws, cap@, i as int) == Ok::<_, ExpandError>(out.deep_view()),
        decreases specs.len() - i,
    {
        let ghost before = out.deep_view();
        proof {
            assert(raws[i as int] == specs@[i as int]@);
            if expanded_to(raws, cap@, i + 1) is Err {
                lemma_expand_error_stays(raws, cap@, i + 1, raws.len() as int);
            }
        }
        let sp = match parse_dmem_spec(specs[i].as_str()) {
            Ok(sp) => sp,
            Err(error) => {
                return Err(ExpandError::Spec { at: i, error });
            },
        };
        match sp.region {
            Some(region) => {
                if !cap.contains(region.as_str()) {
                    return Err(ExpandError::UnknownRegion { at: i });
                }
                let ghost key = region@;
                out.push((region, sp.value));
                assert(out.deep_view() =~= before + seq![(key, sp.value)]);
            },
            None => {
                let ghost all = on_every_region(cap@, sp.value);
                let mut j: usize = 0;
                assert(out.deep_view() =~= before + all.take(0));
                while j < cap.len()
                    invariant
                        j <= cap@.len() == all.len(),
                        all == on_every_region(cap@, sp.value),
                        out.deep_view() == before + all.take(j as int),
                    decreases cap@.len() - j,
                {
                    let name = cap.name(j).to_owned();
                    let ghost here = out.deep_view();
                    let ghost key = name@;
                    out.push((name, sp.value));
                    assert(out.deep_view() =~= here.push((key, sp.value)));
                    assert(out.deep_view() =~= before + all.take(j + 1));
                    j = j + 1;
                }
                assert(all.take(j as int) =~= all);
            },
        }
        i = i + 1;
    }
    Ok(out)
}

/// A text without white space.
pub open spec fn spaceless(s: Seq<char>) -> bool {
    forall|i: int| 0 <= i < s.len() ==> !is_space(#[trigger] s[i])
}

proof fn lemma_spaceless_trimmed(s: Seq<char>)
    requires
        spaceless(s),
    ensures
        trimmed(s) == s,
{
    if s.len() > 0 {
        assert(!is_space(s[0]));
        assert(!is_space(s[s.len() - 1]));
    }
}

proof fn lemma_space_from_is(s: Seq<char>, i: int, e: int)
    requires
        0 <= i <= e <= s.len(),
        forall|j: int| i <= j < e ==> !is_space(#[trigger] s[j]),
        e < s.len() ==> is_space(s[e]),
    ensures
        space_from(s, i) == e,
    decreases e - i,
{
    if i < e {
        assert(!is_space(s[i]));
        lemma_space_from_is(s, i + 1, e);
    }
}

proof fn lemma_one_word(s: Seq<char>)
    requires
        spaceless(s),
        s.len() > 0,
    ensures
        words(s) == seq![s],
{
    lemma_space_from_is(s, 0, s.len() as int);
    assert(!is_space(s[0]));
    assert(s.subrange(0, s.len() as int) =~= s);
    assert(words_from(s, s.len() as int) =~= Seq::empty());
    assert(words(s) =~= seq![s]);
}

proof fn lemma_two_words(a: Seq<char>, b: Seq<char>)
    requires
        spaceless(a),
        spaceless(b),
        a.len() > 0,
        b.len() > 0,
    ensures
        words(a + seq![' '] + b) == seq![a, b],
        trimmed(a + seq![' '] + b) == a + seq![' '] + b,
{
    let s = a + seq![' '] + b;
    let k = a.len() as int;
    assert forall|j: int| 0 <= j < k implies !is_space(#[trigger] s[j]) by {
        assert(s[j] == a[j]);
    }
    assert(is_space(s[k]));
    assert forall|j: int| k + 1 <= j < s.len() implies !is_space(#[trigger] s[j]) by {
        assert(s[j] == b[j - k - 1]);
    }
    lemma_space_from_is(s, 0, k);
    lemma_space_from_is(s, k + 1, s.len() as int);
    assert(!is_space(s[0]));
    assert(!is_space(s[k + 1]));
    assert(s.subrange(0, k) =~= a);
    assert(s.subrange(k + 1, s.len() as int) =~= b);
    assert(words_from(s, s.len() as int) =~= Seq::empty());
    assert(words_from(s, k + 1) =~= seq![b]);
    assert(words_from(s, k) =~= seq![b]);
    assert(words(s) =~= seq![a, b]);
    assert(!is_space(s.last()));
}

proof fn lemma_unit_letters(u: Seq<char>)
    requires
        multiplier(u) is Some,
    ensures
        forall|i: int| 0 <= i < u.len() ==> #[trigger] u[i] != ':' && u[i] != '=',
{
    reveal_strlit("");
    reveal_strlit("b");
    reveal_strlit("k");
    reveal_strlit("kb");
    reveal_strlit("kib");
    reveal_strlit("m");
    reveal_strlit("mb");
    reveal_strlit("mib");
    reveal_strlit("g");
    reveal_strlit("gb");
    reveal_strlit("gib");
    reveal_strlit("t");
    reveal_strlit("tb");
    reveal_strlit("tib");
    assert forall|i: int| 0 <= i < u.len() implies #[trigger] u[i] != ':' && u[i] != '=' by {
        if u[i] == ':' || u[i] == '=' {
            assert(fold(u[i]) == 58 || fold(u[i]) == 61);
            assert(alike(""@, u) || alike("b"@, u) || alike("k"@, u) || alike("kb"@, u) || alike(
                "kib"@,
                u,
            ) || alike("m"@, u) || alike("mb"@, u) || alike("mib"@, u) || alike("g"@, u) || alike(
                "gb"@,
                u,
            ) || alike("gib"@, u) || alike("t"@, u) || alike("tb"@, u) || alike("tib"@, u));
            let lit = if alike(""@, u) {
                ""@
            } else if alike("b"@, u) {
                "b"@
            } else if alike("k"@, u) {
                "k"@
            } else if alike("kb"@, u) {
                "kb"@
            } else if alike("kib"@, u) {
                "kib"@
            } else if alike("m"@, u) {
                "m"@
            } else if alike("mb"@, u) {
                "mb"@
            } else if alike("mib"@, u) {
                "mib"@
            } else if alike("g"@, u) {
                "g"@
            } else if alike("gb"@, u) {
                "gb"@
            } else if alike("gib"@, u) {
                "gib"@
            } else if alike("t"@, u) {
                "t"@
            } else if alike("tb"@, u) {
                "tb"@
            } else {
                "tib"@
            };
            assert(alike(lit, u));
            assert(lit.len() == u.len());
            assert(fold(lit[i]) == fold(u[i]));
            assert(i == 0 || i == 1 || i == 2);
            assert(fold(lit[i]) >= 97);
        }
    }
}

proof fn lemma_size_without_separator(z: Seq<char>)
    requires
        spaceless(z),
        size(z) is Ok,
    ensures
        z.len() > 0,
        forall|i: int| 0 <= i < z.len() ==> #[trigger] z[i] != ':' && z[i] != '=',
{
    lemma_spaceless_trimmed(z);
    reveal_strlit("max");
    if alike(z, "max"@) {
        assert forall|i: int| 0 <= i < z.len() implies #[trigger] z[i] != ':' && z[i] != '=' by {
            assert(fold(z[i]) == fold("max"@[i]));
            assert(i == 0 || i == 1 || i == 2);
        }
    } else {
        let k = digits_end(z, 0);
        lemma_digits_end(z, 0);
        let u = z.skip(k);
        assert forall|i: int| 0 <= i < u.len() implies !is_space(#[trigger] u[i]) by {
            assert(u[i] == z[i + k]);
        }
        lemma_spaceless_trimmed(u);
        lemma_unit_letters(u);
        assert forall|i: int| 0 <= i < z.len() implies #[trigger] z[i] != ':' && z[i] != '=' by {
            if i < k {
                assert(is_digit(z[i]));
            } else {
                assert(u[i - k] == z[i]);
            }
        }
    }
}

proof fn lemma_separator_is(s: Seq<char>, n: int, i: int)
    requires
        0 <= i < n <= s.len(),
        s[i] == ':' || s[i] == '=',
        forall|j: int| i < j < n ==> #[trigger] s[j] != ':' && s[j] != '=',
    ensures
        separator_before(s, n) == Some(i),
    decreases n,
{
    if i < n - 1 {
        assert(s[n - 1] != ':' && s[n - 1] != '=');
        lemma_separator_is(s, n - 1, i);
    }
}

/// A region and its size may be parted by a colon, by an equals sign or by a
/// space: the limit is the same, whatever colons the region's own name holds.
pub proof fn law_region_forms(region: Seq<char>, raw: Seq<char>, value: Option<u64>)
    requires
        region.contains('/'),
        spaceless(region),
        spaceless(raw),
        size(raw) == Ok::<Option<u64>, SizeError>(value),
    ensures
        limit(region + seq![':'] + raw) == Ok::<Limit, SpecError>(
            Limit { region: Some(region), value },
        ),
        limit(region + seq!['='] + raw) == Ok::<Limit, SpecError>(
            Limit { region: Some(region), value },
        ),
        limit(region + seq![' '] + raw) == Ok::<Limit, SpecError>(
            Limit { region: Some(region), value },
        ),
{
    lemma_size_without_separator(raw);
    lemma_two_words(region, raw);
    assert forall|c: char| c == ':' || c == '=' implies limit(region + seq![c] + raw) == Ok::<
        Limit,
        SpecError,
    >(Limit { region: Some(region), value }) by {
        let s = region + seq![c] + raw;
        let k = region.len() as int;
        assert forall|i: int| 0 <= i < s.len() implies !is_space(#[trigger] s[i]) by {
            if i < k {
                assert(s[i] == region[i]);
            } else if i > k {
                assert(s[i] == raw[i - k - 1]);
            }
        }
        lemma_spaceless_trimmed(s);
        lemma_one_word(s);
        assert forall|j: int| k < j < s.len() implies #[trigger] s[j] != ':' && s[j] != '=' by {
            assert(s[j] == raw[j - k - 1]);
        }
        lemma_separator_is(s, s.len() as int, k);
        assert(s.take(k) =~= region);
        assert(s.skip(k + 1) =~= raw);
    }
}

/// A size alone limits every region.
pub proof fn law_bare_size(raw: Seq<char>, value: Option<u64>)
    requires
        spaceless(raw),
        size(raw) == Ok::<Option<u64>, SizeError>(value),
    ensures
        limit(raw) == Ok::<Limit, SpecError>(Limit { region: None, value }),
{
    lemma_size_without_separator(raw);
    lemma_spaceless_trimmed(raw);
    lemma_one_word(raw);
    lemma_no_separator(raw, raw.len() as int);
}

proof fn lemma_no_separator(s: Seq<char>, n: int)
    requires
        0 <= n <= s.len(),
        forall|j: int| 0 <= j < n ==> #[trigger] s[j] != ':' && s[j] != '=',
    ensures
        separator_before(s, n) is None,
    decreases n,
{
    if n > 0 {
        assert(s[n - 1] != ':' && s[n - 1] != '=');
        lemma_no_separator(s, n - 1);
    }
}

/// Limits are only ever resolved to regions that are there.
pub proof fn law_expanded_regions_exist(
    specs: Seq<Seq<char>>,
    cap: Seq<(Seq<char>, u64)>,
    out: Seq<(Seq<char>, Option<u64>)>,
)
    requires
        expanded(specs, cap) == Ok::<_, ExpandError>(out),
    ensures
        forall|i: int| 0 <= i < out.len() ==> has_region(cap, (#[trigger] out[i]).0),
{
    lemma_expanded_to_exist(specs, cap, specs.len() as int);
    assert(expanded_to(specs, cap, specs.len() as int)->Ok_0 == out);
}

proof fn lemma_expanded_to_exist(specs: Seq<Seq<char>>, cap: Seq<(Seq<char>, u64)>, n: int)
    requires
        0 <= n <= specs.len(),
    ensures
        expanded_to(specs, cap, n) matches Ok(out) ==> forall|i: int|
            0 <= i < out.len() ==> has_region(cap, (#[trigger] out[i]).0),
    decreases n,
{
    if n > 0 {
        lemma_expanded_to_exist(specs, cap, n - 1);
        if let Ok(out) = expanded_to(specs, cap, n) {
            let before = expanded_to(specs, cap, n - 1)->Ok_0;
            let more = expanded_one(specs[n - 1], (n - 1) as usize, cap)->Ok_0;
            assert forall|i: int| 0 <= i < out.len() implies has_region(cap, (#[trigger] out[i]).0) by {
                if i < before.len() {
                    assert(out[i] == before[i]);
                } else {
                    assert(out[i] == more[i - before.len()]);
                    let l = limit(specs[n - 1])->Ok_0;
                    if l.region is None {
                        assert(cap[i - before.len()].0 == out[i].0);
                    }
                }
            }
        }
    }
}

proof fn lemma_capacity_prefix(a: Seq<Seq<char>>, b: Seq<Seq<char>>, n: int)
    requires
        0 <= n <= a.len(),
    ensures
        capacity_lines(a + b, n) == capacity_lines(a, n),
    decreases n,
{
    if n > 0 {
        lemma_capacity_prefix(a, b, n - 1);
        assert((a + b)[n - 1] == a[n - 1]);
    }
}

/// The regions after one more line, by its words: one without words names
/// nothing, a region without a size and a size that is no number of 64 bits are
/// faults.
pub open spec fn regions_with(cap: Seq<(Seq<char>, u64)>, w: Seq<Seq<char>>) -> Result<
    Seq<(Seq<char>, u64)>,
    CapacityError,
> {
    if w.len() == 0 {
        Ok(cap)
    } else if w.len() == 1 {
        Err(CapacityError::MissingSize)
    } else {
        match unsigned(w[1]) {
            Some(n) => if n <= 0xffff_ffff_ffff_ffff {
                Ok(with_region(cap, w[0], n as u64))
            } else {
                Err(CapacityError::BadSize)
            },
            None => Err(CapacityError::BadSize),
        }
    }
}

/// Each line of a list of regions is read by its words, after those before it;
/// the first fault decides.
pub proof fn law_regions_line_by_line(t: Seq<char>, line: Seq<char>)
    requires
        t.len() == 0 || t.last() == '\n',
        one_line(line),
    ensures
        capacity(t + line + seq!['\n']) == match capacity(t) {
            Ok(cap) => regions_with(cap, words(line)),
            Err(e) => Err(e),
        },
        capacity(t + line) == match capacity(t) {
            Ok(cap) => regions_with(cap, words(line)),
            Err(e) => Err(e),
        },
        capacity(Seq::empty()) == Ok::<Seq<(Seq<char>, u64)>, CapacityError>(Seq::empty()),
{
    let ls = lines(t);
    let n = ls.len() as int;
    let none = Seq::<char>::empty();
    law_chomped(line);
    law_words_of_trimmed(line);
    law_more_lines(t, line + seq!['\n']);
    assert(t + line + seq!['\n'] =~= t + (line + seq!['\n']));
    law_first_line(line, none);
    assert(line + seq!['\n'] + none =~= line + seq!['\n']);
    let one = seq![chomped(line)];
    assert(lines(line + seq!['\n']) =~= one);
    lemma_capacity_prefix(ls, one, n);
    assert((ls + one)[n] == chomped(line));
    assert(capacity_lines(ls + one, n + 1) == match capacity_lines(ls + one, n) {
        Ok(cap) => capacity_line(cap, (ls + one)[n]),
        Err(e) => Err(e),
    });
    law_more_lines(t, line);
    law_last_line(line);
    if line.len() > 0 {
        let last = seq![line];
        lemma_capacity_prefix(ls, last, n);
        assert((ls + last)[n] == line);
        assert(capacity_lines(ls + last, n + 1) == match capacity_lines(ls + last, n) {
            Ok(cap) => capacity_line(cap, (ls + last)[n]),
            Err(e) => Err(e),
        });
    } else {
        assert(t + line =~= t);
        assert(words(line) =~= Seq::empty());
    }
    assert(lines(Seq::empty()) =~= Seq::empty());
}

/// Setting the size of a region sets it for that region alone: a new region
/// comes last, and one that is there keeps its place.
pub proof fn law_region_is_set(cap: Seq<(Seq<char>, u64)>, name: Seq<char>, size: u64, i: int)
    requires
        distinct(cap),
    ensures
        (forall|j: int| 0 <= j < cap.len() ==> (#[trigger] cap[j]).0 != name) ==> with_region(
            cap,
            name,
            size,
        ) == cap.push((name, size)),
        0 <= i < cap.len() && cap[i].0 == name ==> with_region(cap, name, size) == cap.update(
            i,
            (name, size),
        ),
{
    if 0 <= i < cap.len() && cap[i].0 == name {
        let now = with_region(cap, name, size);
        assert forall|j: int| 0 <= j < cap.len() implies #[trigger] now[j] == cap.update(
            i,
            (name, size),
        )[j] by {
            if j < i {
                assert(cap[j].0 != cap[i].0);
            } else if j > i {
                assert(cap[i].0 != cap[j].0);
            }
        }
        assert(now =~= cap.update(i, (name, size)));
    }
}

/// The text of a `dmem.capacity` that lists regions, one on each line.
pub open spec fn capacity_text(pairs: Seq<(Seq<char>, u64)>) -> Seq<char>
    decreases pairs.len(),
{
    if pairs.len() == 0 {
        Seq::empty()
    } else {
        capacity_text(pairs.drop_last()) + (pairs.last().0 + seq![' '] + decimal(
            pairs.last().1 as nat,
        )) + seq!['\n']
    }
}

proof fn lemma_region_line(name: Seq<char>, n: u64)
    requires
        name.len() > 0,
        spaceless(name),
    ensures
        words(name + seq![' '] + decimal(n as nat)) == seq![name, decimal(n as nat)],
        one_line(name + seq![' '] + decimal(n as nat)),
        unsigned(decimal(n as nat)) == Some(n as nat),
{
    let d = decimal(n as nat);
    let line = name + seq![' '] + d;
    lemma_decimal(n as nat);
    assert(is_digit(d[0]));
    assert forall|i: int| 0 <= i < d.len() implies !is_space(#[trigger] d[i]) by {
        assert(is_digit(d[i]));
    }
    lemma_two_words(name, d);
    if line.contains('\n') {
        let i = choose|i: int| 0 <= i < line.len() && line[i] == '\n';
        assert(is_space('\n'));
        if i < name.len() {
            assert(line[i] == name[i]);
        } else if i > name.len() {
            assert(line[i] == d[i - name.len() - 1]);
        }
    }
}

/// However many regions there are and whatever their sizes of 64 bits, a list of
/// them reads as all of them, each with its size, in their order.
pub proof fn law_all_regions_are_read(pairs: Seq<(Seq<char>, u64)>)
    requires
        distinct(pairs),
        forall|i: int|
            0 <= i < pairs.len() ==> (#[trigger] pairs[i]).0.len() > 0 && spaceless(pairs[i].0),
    ensures
        capacity(capacity_text(pairs)) == Ok::<Seq<(Seq<char>, u64)>, CapacityError>(pairs),
        pairs.len() > 0 ==> capacity_text(pairs).last() == '\n',
    decreases pairs.len(),
{
    if pairs.len() == 0 {
        assert(lines(Seq::empty()) =~= Seq::empty());
        assert(pairs =~= Seq::empty());
    } else {
        let init = pairs.drop_last();
        let (name, n) = pairs.last();
        let line = name + seq![' '] + decimal(n as nat);
        assert(distinct(init)) by {
            assert forall|i: int, j: int| 0 <= i < j < init.len() implies (#[trigger] init[i]).0
                != (#[trigger] init[j]).0 by {
                assert(pairs[i].0 != pairs[j].0);
            }
        }
        assert forall|i: int| 0 <= i < init.len() implies (#[trigger] init[i]).0.len() > 0
            && spaceless(init[i].0) && init[i].0 != name by {
            assert(init[i] == pairs[i]);
            assert(pairs[i].0 != pairs[pairs.len() - 1].0);
        }
        assert(pairs[pairs.len() - 1].0 == name);
        law_all_regions_are_read(init);
        lemma_region_line(name, n);
        law_regions_line_by_line(capacity_text(init), line);
        law_region_is_set(init, name, n, 0);
        assert(init.push((name, n)) =~= pairs);
    }
}

/// White space around a limit does not matter; nothing else is no limit, nor
/// are two words of which the first names no region, nor more than two.
pub proof fn law_limits_refused(front: Seq<char>, s: Seq<char>, back: Seq<char>)
    requires
        forall|i: int| 0 <= i < front.len() ==> is_space(#[trigger] front[i]),
        forall|i: int| 0 <= i < back.len() ==> is_space(#[trigger] back[i]),
        s.len() > 0 ==> !is_space(s[0]) && !is_space(s.last()),
    ensures
        limit(front + s + back) == limit(s),
        s.len() == 0 ==> limit(s) == Err::<Limit, SpecError>(SpecError::Empty),
        words(s).len() > 2 ==> limit(s) == Err::<Limit, SpecError>(SpecError::Malformed),
        words(s).len() == 2 && !words(s)[0].contains('/') ==> limit(s) == Err::<Limit, SpecError>(
            SpecError::Malformed,
        ),
{
    let none = Seq::<char>::empty();
    law_stripping(front, s, back, Margin::Space);
    law_stripping(none, s, none, Margin::Space);
    assert(none + s + none =~= s);
    if s.len() == 0 {
        assert(words(s) =~= Seq::empty());
    }
}

/// A region with what is no size is a fault of the size, and what names no
/// region and is no size is no limit at all.
pub proof fn law_bad_sizes(region: Seq<char>, raw: Seq<char>, e: SizeError)
    requires
        region.contains('/'),
        spaceless(region),
        spaceless(raw),
        raw.len() > 0,
        forall|i: int| 0 <= i < raw.len() ==> #[trigger] raw[i] != ':' && raw[i] != '=',
        size(raw) == Err::<Option<u64>, SizeError>(e),
    ensures
        limit(region + seq![':'] + raw) == Err::<Limit, SpecError>(SpecError::Size(e)),
        limit(region + seq!['='] + raw) == Err::<Limit, SpecError>(SpecError::Size(e)),
        limit(region + seq![' '] + raw) == Err::<Limit, SpecError>(SpecError::Size(e)),
        limit(raw) == Err::<Limit, SpecError>(SpecError::Malformed),
{
    lemma_two_words(region, raw);
    assert forall|c: char| c == ':' || c == '=' implies limit(region + seq![c] + raw) == Err::<
        Limit,
        SpecError,
    >(SpecError::Size(e)) by {
        let s = region + seq![c] + raw;
        let k = region.len() as int;
        assert forall|i: int| 0 <= i < s.len() implies !is_space(#[trigger] s[i]) by {
            if i < k {
                assert(s[i] == region[i]);
            } else if i > k {
                assert(s[i] == raw[i - k - 1]);
            }
        }
        lemma_spaceless_trimmed(s);
        lemma_one_word(s);
        assert forall|j: int| k < j < s.len() implies #[trigger] s[j] != ':' && s[j] != '=' by {
            assert(s[j] == raw[j - k - 1]);
        }
        lemma_separator_is(s, s.len() as int, k);
        assert(s.take(k) =~= region);
        assert(s.skip(k + 1) =~= raw);
    }
    lemma_spaceless_trimmed(raw);
    lemma_one_word(raw);
    lemma_no_separator(raw, raw.len() as int);
}

proof fn lemma_expanded_prefix(
    a: Seq<Seq<char>>,
    b: Seq<Seq<char>>,
    cap: Seq<(Seq<char>, u64)>,
    n: int,
)
    requires
        0 <= n <= a.len(),
    ensures
        expanded_to(a + b, cap, n) == expanded_to(a, cap, n),
    decreases n,
{
    if n > 0 {
        lemma_expanded_prefix(a, b, cap, n - 1);
        assert((a + b)[n - 1] == a[n - 1]);
    }
}

/// Limits on device memory are resolved one after the other: a size alone goes
/// to every region in its order, a region with a size to that region, where it
/// is there. The first at fault decides, and is named by its place.
pub proof fn law_limits_are_resolved(
    specs: Seq<Seq<char>>,
    raw: Seq<char>,
    cap: Seq<(Seq<char>, u64)>,
)
    requires
        cap.len() > 0,
        specs.len() < usize::MAX,
    ensures
        expanded(specs.push(raw), cap) == match expanded(specs, cap) {
            Err(e) => Err(e),
            Ok(out) => match limit(raw) {
                Err(error) => Err(ExpandError::Spec { at: specs.len() as usize, error }),
                Ok(l) => match l.region {
                    None => Ok(
                        out + cap.map_values(|r: (Seq<char>, u64)| (r.0, l.value)),
                    ),
                    Some(region) => if exists|i: int|
                        0 <= i < cap.len() && (#[trigger] cap[i]).0 == region {
                        Ok(out.push((region, l.value)))
                    } else {
                        Err(ExpandError::UnknownRegion { at: specs.len() as usize })
                    },
                },
            },
        },
        expanded(Seq::empty(), cap) == Ok::<Seq<(Seq<char>, Option<u64>)>, ExpandError>(
            Seq::empty(),
        ),
        expanded(specs, Seq::empty()) == Err::<Seq<(Seq<char>, Option<u64>)>, ExpandError>(
            ExpandError::NoRegions,
        ),
{
    let n = specs.len() as int;
    let one = seq![raw];
    assert(specs.push(raw) =~= specs + one);
    lemma_expanded_prefix(specs, one, cap, n);
    if let Ok(out) = expanded(specs, cap) {
        if let Ok(l) = limit(raw) {
            if let Some(region) = l.region {
                assert(out + seq![(region, l.value)] =~= out.push((region, l.value)));
            } else {
                assert(on_every_region(cap, l.value) =~= cap.map_values(
                    |r: (Seq<char>, u64)| (r.0, l.value),
                ));
            }
        }
    }
}

/// Two words of which the first names a region are a limit on that region,
/// whatever white space parts them.
pub proof fn law_region_and_size(s: Seq<char>)
    requires
        words(s).len() == 2,
        words(s)[0].contains('/'),
    ensures
        limit(s) == match size(words(s)[1]) {
            Ok(value) => Ok::<Limit, SpecError>(Limit { region: Some(words(s)[0]), value }),
            Err(e) => Err(SpecError::Size(e)),
        },
{
    law_words_of_trimmed(s);
    if trimmed(s).len() == 0 {
        assert(words(trimmed(s)) =~= Seq::empty());
    }
}

/// A name without a slash is no region: with a colon or an equals sign after it
/// it is no limit.
pub proof fn law_regions_hold_a_slash(name: Seq<char>, c: char, raw: Seq<char>)
    requires
        spaceless(name),
        spaceless(raw),
        !name.contains('/'),
        c == ':' || c == '=',
        forall|i: int| 0 <= i < raw.len() ==> #[trigger] raw[i] != ':' && raw[i] != '=',
    ensures
        limit(name + seq![c] + raw) == Err::<Limit, SpecError>(SpecError::Malformed),
{
    let s = name + seq![c] + raw;
    let k = name.len() as int;
    assert forall|i: int| 0 <= i < s.len() implies !is_space(#[trigger] s[i]) by {
        if i < k {
            assert(s[i] == name[i]);
        } else if i > k {
            assert(s[i] == raw[i - k - 1]);
        }
    }
    lemma_spaceless_trimmed(s);
    lemma_one_word(s);
    assert forall|j: int| k < j < s.len() implies #[trigger] s[j] != ':' && s[j] != '=' by {
        assert(s[j] == raw[j - k - 1]);
    }
    assert(s[k] == c);
    lemma_separator_is(s, s.len() as int, k);
    assert(s.take(k) =~= name);
    if size(s) is Ok {
        lemma_size_without_separator(s);
    }
}

} // verus!
