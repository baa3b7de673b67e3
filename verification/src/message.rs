//! What to say where what was asked for cannot be done.

use vstd::prelude::*;

use crate::dmem::{separator_before, split_at_separator, Capacity, ExpandError, SpecError};
use crate::number::is_digit;
use crate::size::{digits_end, lemma_digits_end, SizeError};
use crate::text::{
    chars, is_space, join_texts, joined_texts, law_stripping, law_words_of_trimmed, split_words,
    trim, trimmed, words, Margin,
};

verus! {

/// Says why a text is no size.
pub open spec fn size_complaint(e: SizeError, raw: Seq<char>) -> Seq<char> {
    let s = trimmed(raw);
    match e {
        SizeError::Empty => "empty size"@,
        SizeError::Invalid => "invalid size '"@ + s + "'"@,
        SizeError::TooLarge => "invalid size '"@ + s
            + "': number too large to fit in target type"@,
        SizeError::UnknownSuffix => "unknown suffix '"@ + trimmed(s.skip(digits_end(s, 0)))
            + "' in '"@ + s + "'"@,
        SizeError::Overflow => "size overflow in '"@ + s + "'"@,
    }
}

/// What follows the digits at the front of a text.
fn after_digits<'a>(s: &'a str) -> (r: &'a str)
    ensures
        r@ == s@.skip(digits_end(s@, 0)),
{
    let cs = chars(s);
    let mut i: usize = 0;
    while i < cs.len() && '0' <= cs[i] && cs[i] <= '9'
        invariant
            cs@ == s@,
            i <= cs.len(),
            digits_end(s@, i as int) == digits_end(s@, 0),
        decreases cs.len() - i,
    {
        assert(is_digit(s@[i as int]));
        i = i + 1;
    }
    let r = s.substring_char(i, cs.len());
    assert(r@ =~= s@.skip(i as int));
    r
}

/// Says why a text is no size.
pub fn size_message(e: SizeError, raw: &str) -> (r: String)
    ensures
        r@ == size_complaint(e, raw@),
{
    let s = trim(raw);
    match e {
        SizeError::Empty => "empty size".to_owned(),
        SizeError::Invalid => "invalid size '".to_owned().concat(s).concat("'"),
        SizeError::TooLarge => "invalid size '".to_owned().concat(s).concat(
            "': number too large to fit in target type",
        ),
        SizeError::UnknownSuffix => "unknown suffix '".to_owned().concat(
            trim(after_digits(s)),
        ).concat("' in '").concat(s).concat("'"),
        SizeError::Overflow => "size overflow in '".to_owned().concat(s).concat("'"),
    }
}

/// The region and the size in a text that gives both.
pub open spec fn spec_parts(raw: Seq<char>) -> (Seq<char>, Seq<char>) {
    let s = trimmed(raw);
    let w = words(s);
    if w.len() == 2 {
        (w[0], w[1])
    } else {
        match separator_before(s, s.len() as int) {
            Some(i) => (s.take(i), s.skip(i + 1)),
            None => (s, s),
        }
    }
}

/// The region and the size in a text that gives both.
fn split_spec<'a>(raw: &'a str) -> (r: (&'a str, &'a str))
    ensures
        (r.0@, r.1@) == spec_parts(raw@),
{
    let s = trim(raw);
    let w = split_words(s);
    assert(w.deep_view().len() == w@.len());
    if w.len() == 2 {
        assert(w.deep_view()[0] == w@[0]@);
        assert(w.deep_view()[1] == w@[1]@);
        return (w[0], w[1]);
    }
    match split_at_separator(s) {
        Some(p) => p,
        None => (s, s),
    }
}

/// Says why a text is no limit on device memory.
pub open spec fn spec_complaint(e: SpecError, raw: Seq<char>) -> Seq<char> {
    match e {
        SpecError::Empty => "empty spec"@,
        SpecError::Malformed => "invalid spec '"@ + trimmed(raw)
            + "': use '<size>' or '<region>:<size>'"@,
        SpecError::Size(e) => size_complaint(e, spec_parts(raw).1),
    }
}

/// Says why a text is no limit on device memory.
pub fn spec_message(e: SpecError, raw: &str) -> (r: String)
    ensures
        r@ == spec_complaint(e, raw@),
{
    match e {
        SpecError::Empty => "empty spec".to_owned(),
        SpecError::Malformed => "invalid spec '".to_owned().concat(trim(raw)).concat(
            "': use '<size>' or '<region>:<size>'",
        ),
        SpecError::Size(e) => size_message(e, split_spec(raw).1),
    }
}

/// The text in place `at`, or nothing.
pub open spec fn text_at(texts: Seq<Seq<char>>, at: usize) -> Seq<char> {
    if at < texts.len() {
        texts[at as int]
    } else {
        Seq::empty()
    }
}

/// The names of the regions, in their order.
pub open spec fn region_names(cap: Seq<(Seq<char>, u64)>) -> Seq<Seq<char>> {
    Seq::new(cap.len(), |i: int| cap[i].0)
}

/// Says why limits on device memory cannot be resolved.
pub open spec fn expand_complaint(
    e: ExpandError,
    specs: Seq<Seq<char>>,
    cap: Seq<(Seq<char>, u64)>,
) -> Seq<char> {
    match e {
        ExpandError::NoRegions => "no dmem regions (check dmem.capacity / driver)"@,
        ExpandError::Spec { at, error } => spec_complaint(error, text_at(specs, at)),
        ExpandError::UnknownRegion { at } => "unknown region '"@ + spec_parts(text_at(specs, at)).0
            + "'; available: "@ + joined_texts(region_names(cap), ", "@),
    }
}

/// The names of the regions, in their order.
fn list_regions(cap: &Capacity) -> (r: Vec<String>)
    ensures
        r.deep_view() == region_names(cap@),
{
    let ghost all = region_names(cap@);
    let mut r: Vec<String> = Vec::new();
    let mut i: usize = 0;
    assert(r.deep_view() =~= all.take(0));
    while i < cap.len()
        invariant
            i <= cap@.len() == all.len(),
            all == region_names(cap@),
            r.deep_view() == all.take(i as int),
        decreases cap@.len() - i,
    {
        let ghost sofar = r.deep_view();
        let t = cap.name(i).to_owned();
        let ghost s = t@;
        r.push(t);
        assert(r.deep_view() =~= sofar.push(s));
        assert(r.deep_view() =~= all.take(i + 1));
        i = i + 1;
    }
    assert(all.take(i as int) =~= all);
    r
}

/// Says why limits on device memory cannot be resolved.
pub fn expand_message(e: ExpandError, specs: &[String], cap: &Capacity) -> (r: String)
    ensures
        r@ == expand_complaint(e, specs.deep_view(), cap@),
{
    match e {
        ExpandError::NoRegions => "no dmem regions (check dmem.capacity / driver)".to_owned(),
        ExpandError::Spec { at, error } => spec_message(error, spec_at(specs, at).as_str()),
        ExpandError::UnknownRegion { at } => {
            let raw = spec_at(specs, at);
            "unknown region '".to_owned().concat(split_spec(raw.as_str()).0).concat(
                "'; available: ",
            ).concat(join_texts(list_regions(cap).as_slice(), ", ").as_str())
        },
    }
}

/// The text in place `at`, or nothing.
fn spec_at(specs: &[String], at: usize) -> (r: String)
    ensures
        r@ == text_at(specs.deep_view(), at),
{
    if at < specs.len() {
        assert(specs.deep_view()[at as int] == specs@[at as int]@);
        specs[at].clone()
    } else {
        String::new()
    }
}

/// Where a limit names a region that is not there, that region is named, and
/// all that are there, in their order.
pub proof fn law_all_regions_are_named(
    specs: Seq<Seq<char>>,
    at: usize,
    cap: Seq<(Seq<char>, u64)>,
)
    requires
        at < specs.len(),
    ensures
        expand_complaint(ExpandError::UnknownRegion { at }, specs, cap) == "unknown region '"@
            + spec_parts(specs[at as int]).0 + "'; available: "@ + joined_texts(
            cap.map_values(|r: (Seq<char>, u64)| r.0),
            ", "@,
        ),
{
    assert(region_names(cap) =~= cap.map_values(|r: (Seq<char>, u64)| r.0));
}

/// What is no size is quoted without the white space around it, and what is no
/// unit both alone and with the digits before it.
pub proof fn law_size_complaints(
    front: Seq<char>,
    digits: Seq<char>,
    gap: Seq<char>,
    unit: Seq<char>,
    back: Seq<char>,
)
    requires
        forall|i: int| 0 <= i < front.len() ==> is_space(#[trigger] front[i]),
        forall|i: int| 0 <= i < gap.len() ==> is_space(#[trigger] gap[i]),
        forall|i: int| 0 <= i < back.len() ==> is_space(#[trigger] back[i]),
        forall|i: int| 0 <= i < digits.len() ==> is_digit(#[trigger] digits[i]),
        digits.len() > 0,
        unit.len() > 0,
        !is_digit(unit[0]),
        !is_space(unit[0]),
        !is_space(unit.last()),
    ensures
        ({
            let core = digits + gap + unit;
            let raw = front + core + back;
            &&& size_complaint(SizeError::Empty, raw) == "empty size"@
            &&& size_complaint(SizeError::Invalid, raw) == "invalid size '"@ + core + "'"@
            &&& size_complaint(SizeError::TooLarge, raw) == "invalid size '"@ + core
                + "': number too large to fit in target type"@
            &&& size_complaint(SizeError::UnknownSuffix, raw) == "unknown suffix '"@ + unit
                + "' in '"@ + core + "'"@
            &&& size_complaint(SizeError::Overflow, raw) == "size overflow in '"@ + core + "'"@
        }),
{
    let core = digits + gap + unit;
    let none = Seq::<char>::empty();
    let k = digits.len() as int;
    assert(core[0] == digits[0]);
    assert(core.last() == unit.last());
    law_stripping(front, core, back, Margin::Space);
    lemma_digits_end(core, 0);
    let e = digits_end(core, 0);
    assert forall|j: int| 0 <= j < k implies is_digit(#[trigger] core[j]) by {
        assert(core[j] == digits[j]);
    }
    if gap.len() > 0 {
        assert(core[k] == gap[0]);
    } else {
        assert(core[k] == unit[0]);
    }
    assert(e == k) by {
        if e < k {
            assert(is_digit(core[e]));
        } else if e > k {
            assert(is_digit(core[k]));
        }
    }
    assert(core.skip(k) =~= gap + unit);
    law_stripping(gap, unit, none, Margin::Space);
    assert(gap + unit + none =~= gap + unit);
}

/// What is no limit is quoted without the white space around it; where it is the
/// size that is none, the words are those on that size.
pub proof fn law_spec_complaints(s: Seq<char>, e: SizeError)
    ensures
        spec_complaint(SpecError::Empty, s) == "empty spec"@,
        spec_complaint(SpecError::Malformed, s) == "invalid spec '"@ + trimmed(s)
            + "': use '<size>' or '<region>:<size>'"@,
        words(s).len() == 2 ==> spec_complaint(SpecError::Size(e), s) == size_complaint(
            e,
            words(s)[1],
        ),
{
    law_words_of_trimmed(s);
}

/// The words on limits that cannot be resolved are those on the text at fault.
pub proof fn law_expand_complaints(
    specs: Seq<Seq<char>>,
    at: usize,
    error: SpecError,
    cap: Seq<(Seq<char>, u64)>,
)
    requires
        at < specs.len(),
    ensures
        expand_complaint(ExpandError::Spec { at, error }, specs, cap) == spec_complaint(
            error,
            specs[at as int],
        ),
        expand_complaint(ExpandError::NoRegions, specs, cap)
            == "no dmem regions (check dmem.capacity / driver)"@,
{
}

} // verus!
