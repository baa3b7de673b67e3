//! Sizes as the command line writes them: `7G`, `512M`, `max`.

use vstd::prelude::*;

use crate::number::{
    alike, decimal, fold, is_digit, lemma_alike_through, lemma_decimal, lemma_leading_zeros, number,
    read_digits, same_ignoring_case, show,
};
use crate::text::{
    back_stripped, chars, front_stripped, is_space, law_stripping, lemma_line_feed_stripped, trim,
    trimmed, Margin,
};

verus! {

/// Why a text is no size.
#[derive(Clone, Copy, Debug, PartialEq, Eq, Structural)]
pub enum SizeError {
    /// Nothing but white space.
    Empty,
    /// No digits at the front.
    Invalid,
    /// The digits denote more than 64 bits hold.
    TooLarge,
    /// What follows the digits is no unit.
    UnknownSuffix,
    /// The size in bytes is more than 64 bits hold.
    Overflow,
}

/// The bytes that a unit stands for, whatever its case.
pub open spec fn multiplier(suffix: Seq<char>) -> Option<nat> {
    if alike(""@, suffix) || alike("b"@, suffix) {
        Some(1)
    } else if alike("k"@, suffix) || alike("kb"@, suffix) || alike("kib"@, suffix) {
        Some(1024)
    } else if alike("m"@, suffix) || alike("mb"@, suffix) || alike("mib"@, suffix) {
        Some(1048576)
    } else if alike("g"@, suffix) || alike("gb"@, suffix) || alike("gib"@, suffix) {
        Some(1073741824)
    } else if alike("t"@, suffix) || alike("tb"@, suffix) || alike("tib"@, suffix) {
        Some(1099511627776)
    } else {
        None
    }
}

/// The bytes that a unit stands for.
fn find_multiplier(suffix: &str) -> (r: Option<u64>)
    ensures
        match r {
            Some(m) => multiplier(suffix@) == Some(m as nat),
            None => multiplier(suffix@) is None,
        },
{
    if same_ignoring_case("", suffix) || same_ignoring_case("b", suffix) {
        Some(1)
    } else if same_ignoring_case("k", suffix) || same_ignoring_case("kb", suffix)
        || same_ignoring_case("kib", suffix) {
        Some(1024)
    } else if same_ignoring_case("m", suffix) || same_ignoring_case("mb", suffix)
        || same_ignoring_case("mib", suffix) {
        Some(1048576)
    } else if same_ignoring_case("g", suffix) || same_ignoring_case("gb", suffix)
        || same_ignoring_case("gib", suffix) {
        Some(1073741824)
    } else if same_ignoring_case("t", suffix) || same_ignoring_case("tb", suffix)
        || same_ignoring_case("tib", suffix) {
        Some(1099511627776)
    } else {
        None
    }
}

/// Where the digits that stand at position `i` end.
pub open spec fn digits_end(s: Seq<char>, i: int) -> int
    decreases s.len() - i,
{
    if 0 <= i < s.len() && is_digit(s[i]) {
        digits_end(s, i + 1)
    } else {
        i
    }
}

/// The size that a trimmed, non-empty text other than `max` denotes.
pub open spec fn bytes(t: Seq<char>) -> Result<u64, SizeError> {
    let k = digits_end(t, 0);
    if k == 0 {
        Err(SizeError::Invalid)
    } else if number(t.take(k)) > u64::MAX {
        Err(SizeError::TooLarge)
    } else {
        match multiplier(trimmed(t.skip(k))) {
            None => Err(SizeError::UnknownSuffix),
            Some(m) => if number(t.take(k)) * m > u64::MAX {
                Err(SizeError::Overflow)
            } else {
                Ok((number(t.take(k)) * m) as u64)
            },
        }
    }
}

/// What a text says of a size: a number of bytes, or `None` for `max`.
pub open spec fn size(s: Seq<char>) -> Result<Option<u64>, SizeError> {
    let t = trimmed(s);
    if alike(t, "max"@) {
        Ok(None)
    } else if t.len() == 0 {
        Err(SizeError::Empty)
    } else {
        match bytes(t) {
            Ok(n) => Ok(Some(n)),
            Err(e) => Err(e),
        }
    }
}

/// How a size is written: in bytes, or `max`.
pub open spec fn size_text(v: Option<u64>) -> Seq<char> {
    match v {
        Some(n) => decimal(n as nat),
        None => "max"@,
    }
}

/// The digits that stand at `i` are digits, and what follows them is none.
pub proof fn lemma_digits_end(s: Seq<char>, i: int)
    requires
        0 <= i <= s.len(),
    ensures
        i <= digits_end(s, i) <= s.len(),
        forall|j: int| i <= j < digits_end(s, i) ==> is_digit(#[trigger] s[j]),
        digits_end(s, i) < s.len() ==> !is_digit(s[digits_end(s, i)]),
    decreases s.len() - i,
{
    if i < s.len() && is_digit(s[i]) {
        lemma_digits_end(s, i + 1);
    }
}

/// Reads a size: `7G`, `512M` or `max`. `None` stands for `max`.
pub fn parse_size(s: &str) -> (r: Result<Option<u64>, SizeError>)
    ensures
        r == size(s@),
{
    let t = trim(s);
    if same_ignoring_case(t, "max") {
        return Ok(None);
    }
    if t.is_empty() {
        return Err(SizeError::Empty);
    }
    let cs = chars(t);
    let n = cs.len();
    let mut k: usize = 0;
    while k < n && '0' <= cs[k] && cs[k] <= '9'
        invariant
            k <= n == cs.len(),
            cs@ == t@,
            digits_end(t@, k as int) == digits_end(t@, 0),
        decreases n - k,
    {
        k = k + 1;
    }
    proof {
        lemma_digits_end(t@, 0);
    }
    if k == 0 {
        return Err(SizeError::Invalid);
    }
    let head = chars(t.substring_char(0, k));
    let ghost digits = t@.take(k as int);
    proof {
        assert(t@.subrange(0, k as int) =~= digits);
        assert(head@.skip(0) =~= digits);
        assert forall|j: int| 0 <= j < digits.len() implies is_digit(#[trigger] digits[j]) by {
            assert(digits[j] == t@[j]);
        }
    }
    let count: u64 = match read_digits(&head, 0, 18446744073709551615) {
        Some(v) => v,
        None => {
            return Err(SizeError::TooLarge);
        },
    };
    assert(t@.subrange(k as int, n as int) =~= t@.skip(k as int));
    match find_multiplier(trim(t.substring_char(k, n))) {
        None => Err(SizeError::UnknownSuffix),
        Some(m) => match count.checked_mul(m) {
            Some(v) => Ok(Some(v)),
            None => Err(SizeError::Overflow),
        },
    }
}

/// Writes a size: in bytes, or `max`.
pub fn format_size(v: Option<u64>) -> (r: String)
    ensures
        r@ == size_text(v),
{
    match v {
        Some(n) => show(n),
        None => "max".to_owned(),
    }
}

/// What a size is written as reads back as that size.
pub proof fn law_size_roundtrip(v: Option<u64>)
    ensures
        size(size_text(v)) == Ok::<Option<u64>, SizeError>(v),
{
    let s = size_text(v);
    reveal_strlit("max");
    match v {
        None => {
            assert(trimmed(s) =~= s);
        },
        Some(n) => {
            lemma_decimal(n as nat);
            assert(is_digit(s[0]));
            assert(is_digit(s.last()));
            assert(trimmed(s) =~= s);
            assert(fold(s[0]) != fold("max"@[0]));
            lemma_digits_end(s, 0);
            assert(digits_end(s, 0) == s.len());
            assert(s.take(s.len() as int) =~= s);
            let rest = s.skip(s.len() as int);
            assert(rest =~= Seq::empty());
            assert(trimmed(rest) =~= rest);
            reveal_strlit("");
            assert(alike(""@, rest));
            assert(multiplier(trimmed(rest)) == Some(1nat));
        },
    }
}

proof fn lemma_fold(x: char, y: char, m: Margin)
    requires
        fold(x) == fold(y),
    ensures
        m.has(x) == m.has(y),
        is_digit(x) == is_digit(y),
        is_digit(x) ==> x == y,
{
}

proof fn lemma_alike_front(a: Seq<char>, b: Seq<char>, m: Margin)
    requires
        alike(a, b),
    ensures
        alike(front_stripped(a, m), front_stripped(b, m)),
    decreases a.len(),
{
    if a.len() > 0 {
        assert(fold(a[0]) == fold(b[0]));
        lemma_fold(a[0], b[0], m);
        if m.has(a[0]) {
            assert forall|i: int| 0 <= i < a.skip(1).len() implies fold(#[trigger] a.skip(1)[i])
                == fold(b.skip(1)[i]) by {
                assert(fold(a[i + 1]) == fold(b[i + 1]));
            }
            lemma_alike_front(a.skip(1), b.skip(1), m);
        }
    }
}

proof fn lemma_alike_back(a: Seq<char>, b: Seq<char>, m: Margin)
    requires
        alike(a, b),
    ensures
        alike(back_stripped(a, m), back_stripped(b, m)),
    decreases a.len(),
{
    if a.len() > 0 {
        assert(fold(a[a.len() - 1]) == fold(b[b.len() - 1]));
        lemma_fold(a.last(), b.last(), m);
        if m.has(a.last()) {
            assert forall|i: int| 0 <= i < a.drop_last().len() implies fold(
                #[trigger] a.drop_last()[i],
            ) == fold(b.drop_last()[i]) by {
                assert(fold(a[i]) == fold(b[i]));
            }
            lemma_alike_back(a.drop_last(), b.drop_last(), m);
        }
    }
}

proof fn lemma_alike_trimmed(a: Seq<char>, b: Seq<char>)
    requires
        alike(a, b),
    ensures
        alike(trimmed(a), trimmed(b)),
{
    lemma_alike_front(a, b, Margin::Space);
    lemma_alike_back(
        front_stripped(a, Margin::Space),
        front_stripped(b, Margin::Space),
        Margin::Space,
    );
}

proof fn lemma_alike_digits(a: Seq<char>, b: Seq<char>, i: int)
    requires
        alike(a, b),
        0 <= i <= a.len(),
    ensures
        digits_end(a, i) == digits_end(b, i),
    decreases a.len() - i,
{
    if i < a.len() {
        assert(fold(a[i]) == fold(b[i]));
        lemma_fold(a[i], b[i], Margin::Space);
        if is_digit(a[i]) {
            lemma_alike_digits(a, b, i + 1);
        }
    }
}

/// The case of letters does not matter to a size.
pub proof fn law_size_ignores_case(a: Seq<char>, b: Seq<char>)
    requires
        alike(a, b),
    ensures
        size(a) == size(b),
{
    let x = trimmed(a);
    let y = trimmed(b);
    lemma_alike_trimmed(a, b);
    lemma_alike_through("max"@, x, y);
    lemma_alike_digits(x, y, 0);
    let k = digits_end(x, 0);
    lemma_digits_end(x, 0);
    lemma_digits_end(y, 0);
    assert forall|i: int| 0 <= i < k implies x[i] == y[i] by {
        assert(fold(x[i]) == fold(y[i]));
        assert(is_digit(x[i]));
        assert(is_digit(y[i]));
    }
    assert(x.take(k) =~= y.take(k));
    let p = x.skip(k);
    let q = y.skip(k);
    assert forall|i: int| 0 <= i < p.len() implies fold(#[trigger] p[i]) == fold(q[i]) by {
        assert(fold(x[i + k]) == fold(y[i + k]));
    }
    lemma_alike_trimmed(p, q);
    let u = trimmed(p);
    let v = trimmed(q);
    lemma_alike_through(""@, u, v);
    lemma_alike_through("b"@, u, v);
    lemma_alike_through("k"@, u, v);
    lemma_alike_through("kb"@, u, v);
    lemma_alike_through("kib"@, u, v);
    lemma_alike_through("m"@, u, v);
    lemma_alike_through("mb"@, u, v);
    lemma_alike_through("mib"@, u, v);
    lemma_alike_through("g"@, u, v);
    lemma_alike_through("gb"@, u, v);
    lemma_alike_through("gib"@, u, v);
    lemma_alike_through("t"@, u, v);
    lemma_alike_through("tb"@, u, v);
    lemma_alike_through("tib"@, u, v);
}

/// A line feed at the end does not matter to a size.
pub proof fn lemma_line_feed_trimmed(s: Seq<char>)
    ensures
        size(s + "\n"@) == size(s),
{
    reveal_strlit("\n");
    lemma_line_feed_stripped(s);
}

/// The units are bytes and, each 1024 times the one before, `k`, `m`, `g` and
/// `t`, alone or with `b` or `ib` after them; there is no other.
pub proof fn law_units(u: Seq<char>)
    ensures
        alike(u, ""@) || alike(u, "b"@) ==> multiplier(u) == Some(1nat),
        alike(u, "k"@) || alike(u, "kb"@) || alike(u, "kib"@) ==> multiplier(u) == Some(1024nat),
        alike(u, "m"@) || alike(u, "mb"@) || alike(u, "mib"@) ==> multiplier(u) == Some(
            1024nat * 1024,
        ),
        alike(u, "g"@) || alike(u, "gb"@) || alike(u, "gib"@) ==> multiplier(u) == Some(
            1024nat * 1024 * 1024,
        ),
        alike(u, "t"@) || alike(u, "tb"@) || alike(u, "tib"@) ==> multiplier(u) == Some(
            1024nat * 1024 * 1024 * 1024,
        ),
        multiplier(u) is Some ==> alike(u, ""@) || alike(u, "b"@) || alike(u, "k"@) || alike(
            u,
            "kb"@,
        ) || alike(u, "kib"@) || alike(u, "m"@) || alike(u, "mb"@) || alike(u, "mib"@) || alike(
            u,
            "g"@,
        ) || alike(u, "gb"@) || alike(u, "gib"@) || alike(u, "t"@) || alike(u, "tb"@) || alike(
            u,
            "tib"@,
        ),
{
    reveal_strlit("");
    reveal_strlit("b");
    reveal_strlit("k");
    reveal_strlit("kb");
    reveal_strlit("kib");
    reveal_strlit("m");
    reveal_strlit("mb");
    reveal_strlit("mib");
    reveal_strlit("g");
    reveal_strlit("gb");
    reveal_strlit("gib");
    reveal_strlit("t");
    reveal_strlit("tb");
    reveal_strlit("tib");
    lemma_alike_back_and_forth(u, ""@);
    lemma_alike_back_and_forth(u, "b"@);
    lemma_alike_back_and_forth(u, "k"@);
    lemma_alike_back_and_forth(u, "kb"@);
    lemma_alike_back_and_forth(u, "kib"@);
    lemma_alike_back_and_forth(u, "m"@);
    lemma_alike_back_and_forth(u, "mb"@);
    lemma_alike_back_and_forth(u, "mib"@);
    lemma_alike_back_and_forth(u, "g"@);
    lemma_alike_back_and_forth(u, "gb"@);
    lemma_alike_back_and_forth(u, "gib"@);
    lemma_alike_back_and_forth(u, "t"@);
    lemma_alike_back_and_forth(u, "tb"@);
    lemma_alike_back_and_forth(u, "tib"@);
    if u.len() > 0 {
        assert(alike(u, "b"@) ==> fold(u[0]) == 98);
        assert(alike(u, "k"@) || alike(u, "kb"@) || alike(u, "kib"@) ==> fold(u[0]) == 107);
        assert(alike(u, "m"@) || alike(u, "mb"@) || alike(u, "mib"@) ==> fold(u[0]) == 109);
        assert(alike(u, "g"@) || alike(u, "gb"@) || alike(u, "gib"@) ==> fold(u[0]) == 103);
        assert(alike(u, "t"@) || alike(u, "tb"@) || alike(u, "tib"@) ==> fold(u[0]) == 116);
    }
}

proof fn lemma_alike_back_and_forth(a: Seq<char>, b: Seq<char>)
    ensures
        alike(a, b) == alike(b, a),
{
    if alike(a, b) {
        assert forall|i: int| 0 <= i < b.len() implies fold(#[trigger] b[i]) == fold(a[i]) by {
            assert(fold(a[i]) == fold(b[i]));
        }
    }
    if alike(b, a) {
        assert forall|i: int| 0 <= i < a.len() implies fold(#[trigger] a[i]) == fold(b[i]) by {
            assert(fold(b[i]) == fold(a[i]));
        }
    }
}

proof fn lemma_digits_end_is(s: Seq<char>, i: int, e: int)
    requires
        0 <= i <= e <= s.len(),
        forall|j: int| i <= j < e ==> is_digit(#[trigger] s[j]),
        e < s.len() ==> !is_digit(s[e]),
    ensures
        digits_end(s, i) == e,
    decreases e - i,
{
    if i < e {
        assert(is_digit(s[i]));
        lemma_digits_end_is(s, i + 1, e);
    }
}

/// A number and a unit are a size: so many times what the unit stands for.
/// Zeros before the number and white space around either do not matter. A
/// number or a size of more than 64 bits is refused, as is what is no unit.
pub proof fn law_sizes_are_read(
    front: Seq<char>,
    zeros: nat,
    n: nat,
    gap: Seq<char>,
    unit: Seq<char>,
    back: Seq<char>,
)
    requires
        forall|i: int| 0 <= i < front.len() ==> is_space(#[trigger] front[i]),
        forall|i: int| 0 <= i < gap.len() ==> is_space(#[trigger] gap[i]),
        forall|i: int| 0 <= i < back.len() ==> is_space(#[trigger] back[i]),
        unit.len() > 0 ==> !is_digit(unit[0]) && !is_space(unit[0]) && !is_space(unit.last()),
        unit.len() == 0 ==> gap.len() == 0,
    ensures
        size(
            front + (Seq::new(zeros, |i: int| '0') + decimal(n) + gap + unit) + back,
        ) == if n > u64::MAX {
            Err::<Option<u64>, SizeError>(SizeError::TooLarge)
        } else {
            match multiplier(unit) {
                None => Err(SizeError::UnknownSuffix),
                Some(m) => if n * m > u64::MAX {
                    Err(SizeError::Overflow)
                } else {
                    Ok(Some((n * m) as u64))
                },
            }
        },
{
    let z = Seq::new(zeros, |i: int| '0');
    let d = z + decimal(n);
    let t = z + decimal(n) + gap + unit;
    let k = d.len() as int;
    lemma_decimal(n);
    lemma_leading_zeros(z, decimal(n));
    assert(is_digit(d[0]));
    assert(t[0] == d[0]);
    if unit.len() > 0 {
        assert(t.last() == unit.last());
    } else {
        assert(t.last() == d[k - 1]);
        assert(is_digit(d[k - 1]));
    }
    law_stripping(front, t, back, Margin::Space);
    reveal_strlit("max");
    assert(!alike(t, "max"@)) by {
        if alike(t, "max"@) {
            assert(fold(t[0]) == fold("max"@[0]));
        }
    }
    assert forall|j: int| 0 <= j < k implies is_digit(#[trigger] t[j]) by {
        assert(t[j] == d[j]);
    }
    if k < t.len() {
        if gap.len() > 0 {
            assert(t[k] == gap[0]);
        } else {
            assert(t[k] == unit[0]);
        }
    }
    lemma_digits_end_is(t, 0, k);
    assert(t.take(k) =~= d);
    assert(t.skip(k) =~= gap + unit);
    let none = Seq::<char>::empty();
    law_stripping(gap, unit, none, Margin::Space);
    assert(gap + unit + none =~= gap + unit);
}

/// `max` is no limit, in whatever case and with whatever white space around it;
/// white space alone is no size, and nor is what begins with no digit.
pub proof fn law_other_sizes(front: Seq<char>, t: Seq<char>, back: Seq<char>)
    requires
        forall|i: int| 0 <= i < front.len() ==> is_space(#[trigger] front[i]),
        forall|i: int| 0 <= i < back.len() ==> is_space(#[trigger] back[i]),
        t.len() > 0 ==> !is_space(t[0]) && !is_space(t.last()) && !is_digit(t[0]),
    ensures
        size(front + t + back) == if alike(t, "max"@) {
            Ok::<Option<u64>, SizeError>(None)
        } else if t.len() == 0 {
            Err(SizeError::Empty)
        } else {
            Err(SizeError::Invalid)
        },
{
    law_stripping(front, t, back, Margin::Space);
}

/// A size is written as its decimal form in bytes, and no limit as `max`.
pub proof fn law_sizes_are_written(n: u64)
    ensures
        size_text(Some(n)) == decimal(n as nat),
        size_text(None) == "max"@,
{
}

} // verus!
