//! Text as a sequence of characters: trimming, splitting and searching.

use vstd::prelude::*;

verus! {

/// The characters of `s`, in order.
pub fn chars(s: &str) -> (v: Vec<char>)
    ensures
        v@ == s@,
{
    let mut v: Vec<char> = Vec::new();
    for c in it: s.chars()
        invariant
            v@ == it.seq().take(it.index()),
            it.seq() == s@,
    {
        v.push(c);
    }
    v
}

/// Whether two texts hold the same characters.
pub fn same(a: &str, b: &str) -> (r: bool)
    ensures
        r == (a@ == b@),
{
    a.to_owned() == b.to_owned()
}

/// The characters that a trim takes off the edge of a text.
#[derive(Clone, Copy, Debug, PartialEq, Eq, Structural)]
pub enum Margin {
    /// Unicode white space.
    Space,
    /// The path separator.
    Slash,
}

/// Unicode `White_Space`.
pub open spec fn is_space(c: char) -> bool {
    let u = c as u32;
    ||| 0x9 <= u <= 0xd
    ||| u == 0x20
    ||| u == 0x85
    ||| u == 0xa0
    ||| u == 0x1680
    ||| 0x2000 <= u <= 0x200a
    ||| u == 0x2028
    ||| u == 0x2029
    ||| u == 0x202f
    ||| u == 0x205f
    ||| u == 0x3000
}

impl Margin {
    /// Whether `c` belongs to the margin.
    pub open spec fn has(self, c: char) -> bool {
        match self {
            Margin::Space => is_space(c),
            Margin::Slash => c == '/',
        }
    }

    /// Whether `c` belongs to the margin.
    pub fn holds(self, c: char) -> (r: bool)
        ensures
            r == self.has(c),
    {
        match self {
            Margin::Space => {
                let u: u32 = c as u32;
                (0x9 <= u && u <= 0xd) || u == 0x20 || u == 0x85 || u == 0xa0 || u == 0x1680 || (
                0x2000 <= u && u <= 0x200a) || u == 0x2028 || u == 0x2029 || u == 0x202f || u
                    == 0x205f || u == 0x3000
            },
            Margin::Slash => c == '/',
        }
    }
}

/// `s` without the margin characters at its front.
pub open spec fn front_stripped(s: Seq<char>, m: Margin) -> Seq<char>
    decreases s.len(),
{
    if s.len() > 0 && m.has(s[0]) {
        front_stripped(s.skip(1), m)
    } else {
        s
    }
}

/// `s` without the margin characters at its back.
pub open spec fn back_stripped(s: Seq<char>, m: Margin) -> Seq<char>
    decreases s.len(),
{
    if s.len() > 0 && m.has(s.last()) {
        back_stripped(s.drop_last(), m)
    } else {
        s
    }
}

/// `s` without the margin characters at either end.
pub open spec fn stripped(s: Seq<char>, m: Margin) -> Seq<char> {
    back_stripped(front_stripped(s, m), m)
}

/// `s` without the white space at either end.
pub open spec fn trimmed(s: Seq<char>) -> Seq<char> {
    stripped(s, Margin::Space)
}

proof fn lemma_front_stripped(s: Seq<char>, m: Margin, n: int)
    requires
        0 <= n <= s.len(),
        forall|j: int| 0 <= j < n ==> m.has(#[trigger] s[j]),
        n < s.len() ==> !m.has(s[n]),
    ensures
        front_stripped(s, m) == s.skip(n),
    decreases n,
{
    if n > 0 {
        assert(m.has(s[0]));
        let t = s.skip(1);
        assert forall|j: int| 0 <= j < n - 1 implies m.has(#[trigger] t[j]) by {
            assert(t[j] == s[j + 1]);
        }
        lemma_front_stripped(t, m, n - 1);
        assert(t.skip(n - 1) =~= s.skip(n));
    } else {
        assert(s.skip(0) =~= s);
    }
}

proof fn lemma_back_stripped(s: Seq<char>, m: Margin, n: int)
    requires
        0 <= n <= s.len(),
        forall|j: int| n <= j < s.len() ==> m.has(#[trigger] s[j]),
        n > 0 ==> !m.has(s[n - 1]),
    ensures
        back_stripped(s, m) == s.take(n),
    decreases s.len(),
{
    if n < s.len() {
        assert(m.has(s[s.len() - 1]));
        let t = s.drop_last();
        lemma_back_stripped(t, m, n);
        assert(t.take(n) =~= s.take(n));
    } else {
        assert(s.take(n) =~= s);
    }
}

/// Takes the margin characters off the front.
pub fn strip_front<'a>(s: &'a str, m: Margin) -> (r: &'a str)
    ensures
        r@ == front_stripped(s@, m),
{
    let cs = chars(s);
    let n = cs.len();
    let mut i: usize = 0;
    while i < n && m.holds(cs[i])
        invariant
            i <= n == cs.len(),
            cs@ == s@,
            forall|j: int| 0 <= j < i ==> m.has(#[trigger] s@[j]),
        decreases n - i,
    {
        i = i + 1;
    }
    proof {
        lemma_front_stripped(s@, m, i as int);
        assert(s@.subrange(i as int, n as int) =~= s@.skip(i as int));
    }
    s.substring_char(i, n)
}

/// Takes the margin characters off the back.
pub fn strip_back<'a>(s: &'a str, m: Margin) -> (r: &'a str)
    ensures
        r@ == back_stripped(s@, m),
{
    let cs = chars(s);
    let n = cs.len();
    let mut i: usize = n;
    while i > 0 && m.holds(cs[i - 1])
        invariant
            i <= n == cs.len(),
            cs@ == s@,
            forall|j: int| i <= j < n ==> m.has(#[trigger] s@[j]),
        decreases i,
    {
        i = i - 1;
    }
    proof {
        lemma_back_stripped(s@, m, i as int);
        assert(s@.subrange(0, i as int) =~= s@.take(i as int));
    }
    s.substring_char(0, i)
}

/// Takes the margin characters off both ends.
pub fn strip<'a>(s: &'a str, m: Margin) -> (r: &'a str)
    ensures
        r@ == stripped(s@, m),
{
    strip_back(strip_front(s, m), m)
}

/// Takes the white space off both ends.
pub fn trim<'a>(s: &'a str) -> (r: &'a str)
    ensures
        r@ == trimmed(s@),
{
    strip(s, Margin::Space)
}

/// The first position at or after `i` that holds white space, or the length.
pub open spec fn space_from(s: Seq<char>, i: int) -> int
    decreases s.len() - i,
{
    if 0 <= i < s.len() && !is_space(s[i]) {
        space_from(s, i + 1)
    } else {
        i
    }
}

/// White space at or after `i` is found at or after `i`, and not where there is
/// none.
pub proof fn lemma_space_from(s: Seq<char>, i: int)
    requires
        0 <= i <= s.len(),
    ensures
        i <= space_from(s, i) <= s.len(),
        i < s.len() && !is_space(s[i]) ==> i < space_from(s, i),
    decreases s.len() - i,
{
    if i < s.len() && !is_space(s[i]) {
        lemma_space_from(s, i + 1);
    }
}

/// The words of `s` from position `i` on: its maximal runs without white space.
pub open spec fn words_from(s: Seq<char>, i: int) -> Seq<Seq<char>>
    decreases s.len() - i,
{
    if !(0 <= i < s.len()) {
        seq![]
    } else if is_space(s[i]) {
        words_from(s, i + 1)
    } else {
        proof {
            lemma_space_from(s, i);
        }
        seq![s.subrange(i, space_from(s, i))] + words_from(s, space_from(s, i))
    }
}

/// The words of `s`.
pub open spec fn words(s: Seq<char>) -> Seq<Seq<char>> {
    words_from(s, 0)
}

/// Splits a text at its white space.
pub fn split_words<'a>(s: &'a str) -> (v: Vec<&'a str>)
    ensures
        v.deep_view() == words(s@),
{
    let cs = chars(s);
    let n = cs.len();
    let mut v: Vec<&'a str> = Vec::new();
    let mut i: usize = 0;
    assert(v.deep_view() + words_from(s@, 0) =~= words(s@));
    while i < n
        invariant
            i <= n == cs.len(),
            cs@ == s@,
            v.deep_view() + words_from(s@, i as int) == words(s@),
        decreases n - i,
    {
        if Margin::Space.holds(cs[i]) {
            i = i + 1;
        } else {
            let start = i;
            proof {
                lemma_space_from(s@, i as int);
            }
            while i < n && !Margin::Space.holds(cs[i])
                invariant
                    start <= i <= n == cs.len(),
                    cs@ == s@,
                    space_from(s@, i as int) == space_from(s@, start as int),
                decreases n - i,
            {
                i = i + 1;
            }
            let w = s.substring_char(start, i);
            let ghost before = v.deep_view();
            v.push(w);
            assert(v.deep_view() =~= before.push(w@));
            assert(v.deep_view() + words_from(s@, i as int) =~= before + words_from(
                s@,
                start as int,
            ));
        }
    }
    assert(v.deep_view() + words_from(s@, n as int) =~= v.deep_view());
    v
}

/// The first position at or after `i` that holds `c`, or the length.
pub open spec fn index_from(s: Seq<char>, c: char, i: int) -> int
    decreases s.len() - i,
{
    if 0 <= i < s.len() && s[i] != c {
        index_from(s, c, i + 1)
    } else {
        i
    }
}

/// The position found holds `c`, and no earlier one does.
pub proof fn lemma_index_from(s: Seq<char>, c: char, i: int)
    requires
        0 <= i <= s.len(),
    ensures
        i <= index_from(s, c, i) <= s.len(),
        index_from(s, c, i) < s.len() ==> s[index_from(s, c, i)] == c,
        forall|j: int| i <= j < index_from(s, c, i) ==> #[trigger] s[j] != c,
    decreases s.len() - i,
{
    if i < s.len() && s[i] != c {
        lemma_index_from(s, c, i + 1);
    }
}

/// The first position at or after `from` that holds `c`, or the length.
pub fn index_of(cs: &Vec<char>, c: char, from: usize) -> (r: usize)
    requires
        from <= cs.len(),
    ensures
        r == index_from(cs@, c, from as int),
        from <= r <= cs.len(),
{
    let mut i: usize = from;
    while i < cs.len() && cs[i] != c
        invariant
            from <= i <= cs.len(),
            index_from(cs@, c, i as int) == index_from(cs@, c, from as int),
        decreases cs.len() - i,
    {
        i = i + 1;
    }
    i
}

/// A line without the carriage return that its line feed may follow.
pub open spec fn chomped(s: Seq<char>) -> Seq<char> {
    if s.len() > 0 && s.last() == '\r' {
        s.drop_last()
    } else {
        s
    }
}

/// The lines of `s` from position `i` on.
pub open spec fn lines_from(s: Seq<char>, i: int) -> Seq<Seq<char>>
    decreases s.len() - i,
{
    if !(0 <= i < s.len()) {
        seq![]
    } else {
        proof {
            lemma_index_from(s, '\n', i);
        }
        let e = index_from(s, '\n', i);
        if e < s.len() {
            seq![chomped(s.subrange(i, e))] + lines_from(s, e + 1)
        } else {
            seq![s.subrange(i, e)]
        }
    }
}

/// The lines of `s`: each ends in a line feed, with or without a carriage
/// return before it, but for the last, which may end with the text.
pub open spec fn lines(s: Seq<char>) -> Seq<Seq<char>> {
    lines_from(s, 0)
}

/// Splits a text into its lines.
pub fn split_lines<'a>(s: &'a str) -> (v: Vec<&'a str>)
    ensures
        v.deep_view() == lines(s@),
{
    let cs = chars(s);
    let n = cs.len();
    let mut v: Vec<&'a str> = Vec::new();
    let mut i: usize = 0;
    assert(v.deep_view() + lines_from(s@, 0) =~= lines(s@));
    while i < n
        invariant
            i <= n == cs.len(),
            cs@ == s@,
            v.deep_view() + lines_from(s@, i as int) == lines(s@),
        decreases n - i,
    {
        let e = index_of(&cs, '\n', i);
        let ghost before = v.deep_view();
        let ghost start = i as int;
        if e < n {
            let mut stop = e;
            if stop > i && cs[stop - 1] == '\r' {
                stop = stop - 1;
            }
            let line = s.substring_char(i, stop);
            assert(line@ =~= chomped(s@.subrange(i as int, e as int)));
            v.push(line);
            assert(v.deep_view() =~= before.push(line@));
            i = e + 1;
        } else {
            let line = s.substring_char(i, n);
            v.push(line);
            assert(v.deep_view() =~= before.push(line@));
            i = n;
        }
        assert(v.deep_view() + lines_from(s@, i as int) =~= before + lines_from(s@, start));
    }
    assert(v.deep_view() + lines_from(s@, n as int) =~= v.deep_view());
    v
}

/// Whether `pat` stands in `s` at position `i`.
pub open spec fn occurs_at(s: Seq<char>, pat: Seq<char>, i: int) -> bool {
    &&& 0 <= i
    &&& i + pat.len() <= s.len()
    &&& s.subrange(i, i + pat.len()) == pat
}

/// The first position at or after `i` at which `pat` stands in `s`.
pub open spec fn find_from(s: Seq<char>, pat: Seq<char>, i: int) -> Option<int>
    decreases s.len() + 1 - i,
{
    if i < 0 || i + pat.len() > s.len() {
        None
    } else if occurs_at(s, pat, i) {
        Some(i)
    } else {
        find_from(s, pat, i + 1)
    }
}

/// The first position at which `pat` stands in `s`.
pub open spec fn found(s: Seq<char>, pat: Seq<char>) -> Option<int> {
    find_from(s, pat, 0)
}

/// The position found is the first at which `pat` stands.
pub proof fn lemma_find_from(s: Seq<char>, pat: Seq<char>, i: int)
    requires
        0 <= i,
    ensures
        match find_from(s, pat, i) {
            Some(k) => i <= k && occurs_at(s, pat, k) && forall|j: int|
                i <= j < k ==> !occurs_at(s, pat, j),
            None => forall|j: int| i <= j ==> !occurs_at(s, pat, j),
        },
    decreases s.len() + 1 - i,
{
    if i + pat.len() <= s.len() && !occurs_at(s, pat, i) {
        lemma_find_from(s, pat, i + 1);
    }
}

/// Whether `pat` stands in `cs` at position `i`.
pub fn stands_at(cs: &Vec<char>, pat: &Vec<char>, i: usize) -> (r: bool)
    ensures
        r == occurs_at(cs@, pat@, i as int),
{
    if pat.len() > cs.len() || i > cs.len() - pat.len() {
        return false;
    }
    let mut j: usize = 0;
    while j < pat.len()
        invariant
            i + pat.len() <= cs.len(),
            j <= pat.len(),
            forall|k: int| 0 <= k < j ==> cs@[i + k] == #[trigger] pat@[k],
        decreases pat.len() - j,
    {
        if cs[i + j] != pat[j] {
            assert(cs@.subrange(i as int, i + pat.len())[j as int] != pat@[j as int]);
            return false;
        }
        j = j + 1;
    }
    assert(cs@.subrange(i as int, i + pat.len()) =~= pat@);
    true
}

/// The first position at which `pat` stands in `s`.
pub fn find(s: &str, pat: &str) -> (r: Option<usize>)
    ensures
        match r {
            Some(i) => found(s@, pat@) == Some(i as int) && i + pat@.len() <= s@.len(),
            None => found(s@, pat@) is None,
        },
{
    let cs = chars(s);
    let ps = chars(pat);
    if ps.len() > cs.len() {
        return None;
    }
    let last = cs.len() - ps.len();
    let mut i: usize = 0;
    loop
        invariant
            i <= last,
            last + ps.len() == cs.len(),
            cs@ == s@,
            ps@ == pat@,
            found(s@, pat@) == find_from(s@, pat@, i as int),
        decreases last - i,
    {
        if stands_at(&cs, &ps, i) {
            return Some(i);
        }
        if i == last {
            assert(find_from(s@, pat@, i + 1) is None);
            return None;
        }
        i = i + 1;
    }
}

/// Whether `pat` stands anywhere in `s`.
pub open spec fn contains(s: Seq<char>, pat: Seq<char>) -> bool {
    exists|i: int| occurs_at(s, pat, i)
}

/// Whether `pat` stands anywhere in `s`.
pub fn has_text(s: &str, pat: &str) -> (r: bool)
    ensures
        r == contains(s@, pat@),
{
    proof {
        lemma_find_from(s@, pat@, 0);
    }
    find(s, pat).is_some()
}

/// Whether `c` stands anywhere in `s`.
pub fn has_char(s: &str, c: char) -> (r: bool)
    ensures
        r == s@.contains(c),
{
    let cs = chars(s);
    let i = index_of(&cs, c, 0);
    proof {
        lemma_index_from(s@, c, 0);
    }
    i < cs.len()
}

/// `s` before and after the first `pat` in it.
pub open spec fn halves(s: Seq<char>, pat: Seq<char>) -> Option<(Seq<char>, Seq<char>)> {
    match found(s, pat) {
        Some(i) => Some((s.take(i), s.skip(i + pat.len()))),
        None => None,
    }
}

/// Splits a text at the first `pat` in it.
pub fn split_once<'a>(s: &'a str, pat: &str) -> (r: Option<(&'a str, &'a str)>)
    ensures
        match r {
            Some(p) => halves(s@, pat@) == Some((p.0@, p.1@)),
            None => halves(s@, pat@) is None,
        },
{
    match find(s, pat) {
        None => None,
        Some(i) => {
            let n = s.unicode_len();
            let k = i + pat.unicode_len();
            assert(s@.subrange(0, i as int) =~= s@.take(i as int));
            assert(s@.subrange(k as int, n as int) =~= s@.skip(k as int));
            Some((s.substring_char(0, i), s.substring_char(k, n)))
        },
    }
}

/// Whether `s` begins with `pat`.
pub open spec fn begins(s: Seq<char>, pat: Seq<char>) -> bool {
    pat.len() <= s.len() && s.take(pat.len() as int) == pat
}

/// Whether `s` ends with `pat`.
pub open spec fn ends(s: Seq<char>, pat: Seq<char>) -> bool {
    pat.len() <= s.len() && s.skip(s.len() - pat.len()) == pat
}

/// What follows `pat` at the front of `s`, where `s` begins with it.
pub fn strip_prefix<'a>(s: &'a str, pat: &str) -> (r: Option<&'a str>)
    ensures
        match r {
            Some(t) => begins(s@, pat@) && t@ == s@.skip(pat@.len() as int),
            None => !begins(s@, pat@),
        },
{
    let cs = chars(s);
    let ps = chars(pat);
    if stands_at(&cs, &ps, 0) {
        assert(s@.subrange(0, ps.len() as int) =~= s@.take(ps.len() as int));
        assert(s@.subrange(ps.len() as int, cs.len() as int) =~= s@.skip(ps.len() as int));
        Some(s.substring_char(ps.len(), cs.len()))
    } else {
        assert(begins(s@, pat@) ==> s@.subrange(0, ps.len() as int) =~= s@.take(ps.len() as int));
        None
    }
}

/// What precedes `pat` at the back of `s`, where `s` ends with it.
pub fn strip_suffix<'a>(s: &'a str, pat: &str) -> (r: Option<&'a str>)
    ensures
        match r {
            Some(t) => ends(s@, pat@) && t@ == s@.take(s@.len() - pat@.len()),
            None => !ends(s@, pat@),
        },
{
    let cs = chars(s);
    let ps = chars(pat);
    if ps.len() > cs.len() {
        return None;
    }
    let k = cs.len() - ps.len();
    assert(s@.subrange(k as int, k + ps.len()) =~= s@.skip(k as int));
    if stands_at(&cs, &ps, k) {
        assert(s@.subrange(0, k as int) =~= s@.take(k as int));
        Some(s.substring_char(0, k))
    } else {
        None
    }
}

/// Whether `s` begins with `pat`.
pub fn starts_with(s: &str, pat: &str) -> (r: bool)
    ensures
        r == begins(s@, pat@),
{
    strip_prefix(s, pat).is_some()
}

/// Whether `s` ends with `pat`.
pub fn ends_with(s: &str, pat: &str) -> (r: bool)
    ensures
        r == ends(s@, pat@),
{
    strip_suffix(s, pat).is_some()
}

/// The text in an optional string.
pub open spec fn text_in(s: Option<&str>) -> Option<Seq<char>> {
    match s {
        Some(t) => Some(t@),
        None => None,
    }
}

/// Texts one after the other, with `sep` between them.
pub open spec fn joined_texts(v: Seq<Seq<char>>, sep: Seq<char>) -> Seq<char>
    decreases v.len(),
{
    if v.len() == 0 {
        Seq::empty()
    } else if v.len() == 1 {
        v[0]
    } else {
        joined_texts(v.drop_last(), sep) + sep + v.last()
    }
}

/// Texts one after the other, with `sep` between them.
pub fn join_texts(v: &[String], sep: &str) -> (r: String)
    ensures
        r@ == joined_texts(v.deep_view(), sep@),
{
    let ghost texts = v.deep_view();
    let mut r = String::new();
    let mut i: usize = 0;
    while i < v.len()
        invariant
            i <= v.len(),
            texts == v.deep_view(),
            r@ == joined_texts(texts.take(i as int), sep@),
        decreases v.len() - i,
    {
        assert(texts[i as int] == v@[i as int]@);
        assert(texts.take(i + 1).drop_last() =~= texts.take(i as int));
        if i > 0 {
            r.append(sep);
        }
        r.append(v[i].as_str());
        assert(r@ =~= joined_texts(texts.take(i + 1), sep@));
        i = i + 1;
    }
    assert(texts.take(i as int) =~= texts);
    r
}

/// A list of texts as strings of their own.
pub fn owned(v: &[&str]) -> (r: Vec<String>)
    ensures
        r.deep_view() == v.deep_view(),
{
    let ghost texts = v.deep_view();
    let mut r: Vec<String> = Vec::new();
    let mut i: usize = 0;
    assert(r.deep_view() =~= texts.take(0));
    while i < v.len()
        invariant
            i <= v.len(),
            texts == v.deep_view(),
            r.deep_view() == texts.take(i as int),
        decreases v.len() - i,
    {
        let ghost sofar = r.deep_view();
        let t = v[i].to_owned();
        let ghost s = t@;
        assert(s == texts[i as int]);
        r.push(t);
        assert(r.deep_view() =~= sofar.push(s));
        assert(r.deep_view() =~= texts.take(i + 1));
        i = i + 1;
    }
    assert(texts.take(i as int) =~= texts);
    r
}

/// A list of strings as texts that are borrowed from it.
pub fn borrowed<'a>(v: &'a Vec<String>) -> (r: Vec<&'a str>)
    ensures
        r.deep_view() == v.deep_view(),
{
    let ghost texts = v.deep_view();
    let mut r: Vec<&'a str> = Vec::new();
    let mut i: usize = 0;
    assert(r.deep_view() =~= texts.take(0));
    while i < v.len()
        invariant
            i <= v.len(),
            texts == v.deep_view(),
            r.deep_view() == texts.take(i as int),
        decreases v.len() - i,
    {
        let ghost sofar = r.deep_view();
        let t = v[i].as_str();
        assert(t@ == texts[i as int]);
        r.push(t);
        assert(r.deep_view() =~= sofar.push(t@));
        assert(r.deep_view() =~= texts.take(i + 1));
        i = i + 1;
    }
    assert(texts.take(i as int) =~= texts);
    r
}

/// A line feed at the end is white space like any other.
pub proof fn lemma_line_feed_stripped(s: Seq<char>)
    ensures
        trimmed(s + seq!['\n']) == trimmed(s),
        "\n"@ == seq!['\n'],
    decreases s.len(),
{
    reveal_strlit("\n");
    assert("\n"@ =~= seq!['\n']);
    let t = s + seq!['\n'];
    if s.len() > 0 && is_space(s[0]) {
        assert(t[0] == s[0]);
        assert(t.skip(1) =~= s.skip(1) + seq!['\n']);
        lemma_line_feed_stripped(s.skip(1));
    } else if s.len() > 0 {
        assert(t[0] == s[0]);
        assert(t.drop_last() =~= s);
    } else {
        assert(t.skip(1) =~= s);
        assert(front_stripped(t.skip(1), Margin::Space) =~= s);
    }
}

/// A text without white space.
pub open spec fn unbroken(s: Seq<char>) -> bool {
    forall|i: int| 0 <= i < s.len() ==> !is_space(#[trigger] s[i])
}

/// A text on one line.
pub open spec fn one_line(s: Seq<char>) -> bool {
    !s.contains('\n')
}

/// The blank, the tab and the ends of lines are white space, no printable ASCII
/// character is, and of the others those that Unicode counts among it; the slash
/// alone parts the names of a path.
pub proof fn law_margins(c: char)
    ensures
        c > '~' ==> (Margin::Space.has(c) <==> c == '\u{85}' || c == '\u{a0}' || c == '\u{1680}' || (
        '\u{2000}' <= c <= '\u{200a}') || c == '\u{2028}' || c == '\u{2029}' || c == '\u{202f}' || c
            == '\u{205f}' || c == '\u{3000}'),
        c < ' ' ==> (Margin::Space.has(c) <==> '\t' <= c <= '\r'),
        c == ' ' || c == '\t' || c == '\n' || c == '\r' ==> Margin::Space.has(c),
        '!' <= c <= '~' ==> !Margin::Space.has(c),
        Margin::Slash.has(c) <==> c == '/',
        is_space(c) == Margin::Space.has(c),
{
}

/// Stripping takes off all of the margin at both ends, and nothing else.
pub proof fn law_stripping(front: Seq<char>, core: Seq<char>, back: Seq<char>, m: Margin)
    requires
        forall|i: int| 0 <= i < front.len() ==> m.has(#[trigger] front[i]),
        forall|i: int| 0 <= i < back.len() ==> m.has(#[trigger] back[i]),
        core.len() > 0 ==> !m.has(core[0]) && !m.has(core.last()),
    ensures
        stripped(front + core + back, m) == core,
        front_stripped(front + core, m) == core,
        back_stripped(core + back, m) == core,
{
    lemma_front_stripped(front + core, m, front.len() as int);
    assert((front + core).skip(front.len() as int) =~= core);
    lemma_back_stripped(core + back, m, core.len() as int);
    assert((core + back).take(core.len() as int) =~= core);
    let s = front + core + back;
    if core.len() > 0 {
        lemma_front_stripped(s, m, front.len() as int);
        assert(s.skip(front.len() as int) =~= core + back);
    } else {
        assert forall|j: int| 0 <= j < s.len() implies m.has(#[trigger] s[j]) by {
            if j < front.len() {
                assert(s[j] == front[j]);
            } else {
                assert(s[j] == back[j - front.len()]);
            }
        }
        lemma_front_stripped(s, m, s.len() as int);
        assert(s.skip(s.len() as int) =~= core);
        assert(back_stripped(core, m) =~= core);
    }
}

/// A text without white space is all that trimming leaves of it.
pub proof fn lemma_unbroken_trimmed(s: Seq<char>)
    requires
        unbroken(s),
    ensures
        trimmed(s) == s,
{
    if s.len() > 0 {
        assert(!is_space(s[0]));
        assert(!is_space(s[s.len() - 1]));
    }
}

proof fn lemma_space_from_after(p: Seq<char>, s: Seq<char>, i: int)
    requires
        0 <= i <= s.len(),
    ensures
        space_from(p + s, p.len() + i) == p.len() + space_from(s, i),
    decreases s.len() - i,
{
    if i < s.len() {
        assert((p + s)[p.len() + i] == s[i]);
        if !is_space(s[i]) {
            lemma_space_from_after(p, s, i + 1);
        }
    }
}

proof fn lemma_words_after(p: Seq<char>, s: Seq<char>, i: int)
    requires
        0 <= i <= s.len(),
    ensures
        words_from(p + s, p.len() + i) == words_from(s, i),
    decreases s.len() - i,
{
    let t = p + s;
    let k = p.len() as int;
    if i < s.len() {
        assert(t[k + i] == s[i]);
        if is_space(s[i]) {
            lemma_words_after(p, s, i + 1);
        } else {
            let e = space_from(s, i);
            lemma_space_from(s, i);
            lemma_space_from_after(p, s, i);
            lemma_words_after(p, s, e);
            assert(t.subrange(k + i, k + e) =~= s.subrange(i, e));
        }
    }
}

proof fn lemma_space_from_before(a: Seq<char>, b: Seq<char>, i: int)
    requires
        0 <= i <= a.len(),
        b.len() > 0,
        is_space(b[0]),
    ensures
        space_from(a + b, i) == space_from(a, i),
    decreases a.len() - i,
{
    if i < a.len() {
        assert((a + b)[i] == a[i]);
        if !is_space(a[i]) {
            lemma_space_from_before(a, b, i + 1);
        }
    } else {
        assert((a + b)[i] == b[0]);
    }
}

proof fn lemma_words_before(a: Seq<char>, b: Seq<char>, i: int)
    requires
        0 <= i <= a.len(),
        b.len() > 0,
        is_space(b[0]),
    ensures
        words_from(a + b, i) == words_from(a, i) + words_from(a + b, a.len() as int),
    decreases a.len() - i,
{
    let t = a + b;
    if i < a.len() {
        assert(t[i] == a[i]);
        if is_space(a[i]) {
            lemma_words_before(a, b, i + 1);
        } else {
            let e = space_from(a, i);
            lemma_space_from(a, i);
            lemma_space_from_before(a, b, i);
            lemma_words_before(a, b, e);
            assert(t.subrange(i, e) =~= a.subrange(i, e));
            assert(words_from(t, i) =~= words_from(a, i) + words_from(t, a.len() as int));
        }
    } else {
        assert(words_from(a, i) =~= Seq::empty());
        assert(words_from(t, i) =~= Seq::<Seq<char>>::empty() + words_from(t, i));
    }
}

/// White space parts the words before it from the words after it: none is lost,
/// none is new, and they keep their order.
pub proof fn law_words_parted(a: Seq<char>, space: char, b: Seq<char>)
    requires
        is_space(space),
    ensures
        words(a + seq![space] + b) == words(a) + words(b),
{
    let t = seq![space] + b;
    assert(a + seq![space] + b =~= a + t);
    lemma_words_before(a, t, 0);
    let p = a + seq![space];
    lemma_words_after(p, b, 0);
    assert(p + b =~= a + t);
    assert((a + t)[a.len() as int] == space);
    assert(words_from(a + t, a.len() as int) == words_from(a + t, a.len() as int + 1));
}

proof fn lemma_space_from_none(s: Seq<char>, i: int)
    requires
        unbroken(s),
        0 <= i <= s.len(),
    ensures
        space_from(s, i) == s.len(),
    decreases s.len() - i,
{
    if i < s.len() {
        assert(!is_space(s[i]));
        lemma_space_from_none(s, i + 1);
    }
}

/// A text without white space is one word, and nothing is none.
pub proof fn law_one_word(s: Seq<char>)
    requires
        unbroken(s),
    ensures
        s.len() > 0 ==> words(s) == seq![s],
        s.len() == 0 ==> words(s).len() == 0,
{
    lemma_space_from_none(s, 0);
    if s.len() > 0 {
        assert(!is_space(s[0]));
        assert(s.subrange(0, s.len() as int) =~= s);
        assert(words_from(s, s.len() as int) =~= Seq::empty());
        assert(words(s) =~= seq![s]);
    }
}

/// What is joined by single blanks falls apart into the same words.
pub proof fn law_joined_words(ws: Seq<Seq<char>>)
    requires
        forall|i: int| 0 <= i < ws.len() ==> unbroken(#[trigger] ws[i]) && ws[i].len() > 0,
    ensures
        words(joined_texts(ws, seq![' '])) == ws,
    decreases ws.len(),
{
    if ws.len() == 0 {
        assert(words(Seq::empty()) =~= ws);
    } else if ws.len() == 1 {
        law_one_word(ws[0]);
        assert(ws =~= seq![ws[0]]);
    } else {
        let init = ws.drop_last();
        assert forall|i: int| 0 <= i < init.len() implies unbroken(#[trigger] init[i])
            && init[i].len() > 0 by {
            assert(init[i] == ws[i]);
        }
        law_joined_words(init);
        law_one_word(ws[ws.len() - 1]);
        law_words_parted(joined_texts(init, seq![' ']), ' ', ws.last());
        assert(init + seq![ws.last()] =~= ws);
    }
}

proof fn lemma_words_from_unbroken(s: Seq<char>, i: int)
    requires
        0 <= i <= s.len(),
    ensures
        forall|k: int|
            0 <= k < words_from(s, i).len() ==> unbroken(#[trigger] words_from(s, i)[k])
                && words_from(s, i)[k].len() > 0,
    decreases s.len() - i,
{
    if i < s.len() {
        if is_space(s[i]) {
            lemma_words_from_unbroken(s, i + 1);
            assert(words_from(s, i) == words_from(s, i + 1));
        } else {
            let e = space_from(s, i);
            lemma_space_from(s, i);
            lemma_space_from_bound(s, i);
            lemma_words_from_unbroken(s, e);
            let rest = words_from(s, e);
            let w = s.subrange(i, e);
            assert forall|j: int| 0 <= j < w.len() implies !is_space(#[trigger] w[j]) by {
                assert(w[j] == s[i + j]);
            }
            assert forall|k: int| 0 <= k < words_from(s, i).len() implies unbroken(
                #[trigger] words_from(s, i)[k],
            ) && words_from(s, i)[k].len() > 0 by {
                if k > 0 {
                    assert(words_from(s, i)[k] == rest[k - 1]);
                } else {
                    assert(words_from(s, i)[k] == w);
                }
            }
        }
    }
}

proof fn lemma_space_from_bound(s: Seq<char>, i: int)
    requires
        0 <= i <= s.len(),
    ensures
        forall|j: int| i <= j < space_from(s, i) ==> !is_space(#[trigger] s[j]),
    decreases s.len() - i,
{
    if i < s.len() && !is_space(s[i]) {
        lemma_space_from_bound(s, i + 1);
    }
}

/// A word has something in it, and no white space.
pub proof fn law_words_are_unbroken(s: Seq<char>)
    ensures
        forall|k: int|
            0 <= k < words(s).len() ==> unbroken(#[trigger] words(s)[k]) && words(s)[k].len() > 0,
{
    lemma_words_from_unbroken(s, 0);
}

proof fn lemma_index_from_after(p: Seq<char>, s: Seq<char>, c: char, i: int)
    requires
        0 <= i <= s.len(),
    ensures
        index_from(p + s, c, p.len() + i) == p.len() + index_from(s, c, i),
    decreases s.len() - i,
{
    if i < s.len() {
        assert((p + s)[p.len() + i] == s[i]);
        if s[i] != c {
            lemma_index_from_after(p, s, c, i + 1);
        }
    }
}

proof fn lemma_lines_after(p: Seq<char>, s: Seq<char>, i: int)
    requires
        0 <= i <= s.len(),
    ensures
        lines_from(p + s, p.len() + i) == lines_from(s, i),
    decreases s.len() - i,
{
    let t = p + s;
    let k = p.len() as int;
    if i < s.len() {
        let e = index_from(s, '\n', i);
        lemma_index_from(s, '\n', i);
        lemma_index_from_after(p, s, '\n', i);
        assert(t.subrange(k + i, k + e) =~= s.subrange(i, e));
        if e < s.len() {
            lemma_lines_after(p, s, e + 1);
        }
    }
}

/// A line feed ends a line, and what follows are the lines of the rest.
pub proof fn law_first_line(line: Seq<char>, rest: Seq<char>)
    requires
        one_line(line),
    ensures
        lines(line + seq!['\n'] + rest) == seq![chomped(line)] + lines(rest),
{
    let p = line + seq!['\n'];
    let s = p + rest;
    let n = line.len() as int;
    assert forall|j: int| 0 <= j < n implies #[trigger] s[j] != '\n' by {
        assert(s[j] == line[j]);
        if s[j] == '\n' {
            assert(line.contains('\n'));
        }
    }
    assert(s[n] == '\n');
    lemma_index_from(s, '\n', 0);
    assert(index_from(s, '\n', 0) == n);
    assert(s.subrange(0, n) =~= line);
    lemma_lines_after(p, rest, 0);
}

/// What holds no line feed is one line, and nothing is none.
pub proof fn law_last_line(line: Seq<char>)
    requires
        one_line(line),
    ensures
        line.len() > 0 ==> lines(line) == seq![line],
        line.len() == 0 ==> lines(line).len() == 0,
{
    let n = line.len() as int;
    if n > 0 {
        lemma_index_from(line, '\n', 0);
        if index_from(line, '\n', 0) < n {
            assert(line.contains(line[index_from(line, '\n', 0)]));
        }
        assert(line.subrange(0, n) =~= line);
    }
}

/// One carriage return at the end of a line belongs to its end, and nothing
/// else does.
pub proof fn law_chomped(line: Seq<char>)
    ensures
        chomped(line + seq!['\r']) == line,
        line.len() > 0 && line.last() != '\r' ==> chomped(line) == line,
        line.len() == 0 ==> chomped(line) == line,
        trimmed(chomped(line)) == trimmed(line),
{
    assert((line + seq!['\r']).drop_last() =~= line);
    if line.len() > 0 && line.last() == '\r' {
        lemma_space_at_end(line.drop_last(), '\r');
        assert(line.drop_last() + seq!['\r'] =~= line);
    }
}

/// White space at the end is trimmed off.
pub proof fn lemma_space_at_end(s: Seq<char>, c: char)
    requires
        is_space(c),
    ensures
        trimmed(s + seq![c]) == trimmed(s),
    decreases s.len(),
{
    let t = s + seq![c];
    if s.len() > 0 && is_space(s[0]) {
        assert(t[0] == s[0]);
        assert(t.skip(1) =~= s.skip(1) + seq![c]);
        lemma_space_at_end(s.skip(1), c);
    } else if s.len() > 0 {
        assert(t[0] == s[0]);
        assert(t.drop_last() =~= s);
    } else {
        assert(t.skip(1) =~= s);
        assert(front_stripped(t.skip(1), Margin::Space) =~= s);
    }
}

/// A text is split at the first place where the pattern stands, and nowhere
/// where it does not stand at all.
pub proof fn law_split_at_first(a: Seq<char>, pat: Seq<char>, b: Seq<char>)
    requires
        forall|i: int| 0 <= i < a.len() ==> !occurs_at(a + pat + b, pat, i),
    ensures
        found(a + pat + b, pat) == Some(a.len() as int),
        halves(a + pat + b, pat) == Some((a, b)),
        contains(a + pat + b, pat),
{
    let s = a + pat + b;
    let k = a.len() as int;
    assert(s.subrange(k, k + pat.len()) =~= pat);
    assert(occurs_at(s, pat, k));
    lemma_find_from(s, pat, 0);
    assert(s.take(k) =~= a);
    assert(s.skip(k + pat.len()) =~= b);
}

/// What does not stand in a text is not found in it.
pub proof fn law_not_found(s: Seq<char>, pat: Seq<char>)
    requires
        forall|a: Seq<char>, b: Seq<char>| s != #[trigger] (a + pat + b),
    ensures
        found(s, pat) is None,
        halves(s, pat) is None,
        !contains(s, pat),
{
    assert forall|i: int| !occurs_at(s, pat, i) by {
        if occurs_at(s, pat, i) {
            assert(s =~= s.take(i) + pat + s.skip(i + pat.len()));
        }
    }
    lemma_find_from(s, pat, 0);
}

/// What begins or ends with a text is that text with something after or before
/// it.
pub proof fn law_begins_and_ends(s: Seq<char>, t: Seq<char>)
    ensures
        begins(s + t, s),
        ends(s + t, t),
        begins(s, t) ==> s == t + s.skip(t.len() as int),
        ends(s, t) ==> s == s.take(s.len() - t.len()) + t,
{
    assert((s + t).take(s.len() as int) =~= s);
    assert((s + t).skip(s.len() as int) =~= t);
    if begins(s, t) {
        assert(s =~= t + s.skip(t.len() as int));
    }
    if ends(s, t) {
        assert(s =~= s.take(s.len() - t.len()) + t);
    }
}

/// Joining texts puts the separator between each and the next, and nothing
/// else anywhere.
pub proof fn law_joining(a: Seq<Seq<char>>, b: Seq<Seq<char>>, sep: Seq<char>)
    requires
        a.len() > 0,
        b.len() > 0,
    ensures
        joined_texts(a + b, sep) == joined_texts(a, sep) + sep + joined_texts(b, sep),
        joined_texts(seq![a[0]], sep) == a[0],
        joined_texts(Seq::empty(), sep).len() == 0,
    decreases b.len(),
{
    let all = a + b;
    let init = b.drop_last();
    assert(all.drop_last() =~= a + init);
    assert(all.last() == b.last());
    if b.len() == 1 {
        assert(a + init =~= a);
        assert(joined_texts(b, sep) == b[0]);
    } else {
        law_joining(a, init, sep);
        assert(joined_texts(all, sep) =~= joined_texts(a, sep) + sep + joined_texts(b, sep));
    }
}

/// Whole lines and what follows them are their lines, then the lines of the
/// rest.
pub proof fn law_more_lines(t: Seq<char>, rest: Seq<char>)
    requires
        t.len() == 0 || t.last() == '\n',
    ensures
        lines(t + rest) == lines(t) + lines(rest),
    decreases t.len(),
{
    if t.len() == 0 {
        assert(t + rest =~= rest);
        assert(lines(t) + lines(rest) =~= lines(rest));
    } else {
        let e = index_from(t, '\n', 0);
        lemma_index_from(t, '\n', 0);
        assert(t[t.len() - 1] == '\n');
        assert(e < t.len());
        let line = t.take(e);
        let more = t.skip(e + 1);
        assert(!line.contains('\n')) by {
            if line.contains('\n') {
                let i = choose|i: int| 0 <= i < line.len() && line[i] == '\n';
                assert(t[i] == '\n');
            }
        }
        assert(t =~= line + seq!['\n'] + more);
        assert(t + rest =~= line + seq!['\n'] + (more + rest));
        law_first_line(line, more);
        law_first_line(line, more + rest);
        law_more_lines(more, rest);
        assert(lines(t + rest) =~= lines(t) + lines(rest));
    }
}

proof fn lemma_words_front(s: Seq<char>)
    ensures
        words(front_stripped(s, Margin::Space)) == words(s),
    decreases s.len(),
{
    if s.len() > 0 && is_space(s[0]) {
        let none = Seq::<char>::empty();
        lemma_words_front(s.skip(1));
        law_words_parted(none, s[0], s.skip(1));
        assert(none + seq![s[0]] + s.skip(1) =~= s);
        assert(words(none) + words(s.skip(1)) =~= words(s.skip(1)));
    }
}

proof fn lemma_words_back(s: Seq<char>)
    ensures
        words(back_stripped(s, Margin::Space)) == words(s),
    decreases s.len(),
{
    if s.len() > 0 && is_space(s.last()) {
        let none = Seq::<char>::empty();
        lemma_words_back(s.drop_last());
        law_words_parted(s.drop_last(), s.last(), none);
        assert(s.drop_last() + seq![s.last()] + none =~= s);
        assert(words(s.drop_last()) + words(none) =~= words(s.drop_last()));
    }
}

/// White space at the ends of a text does not matter to its words.
pub proof fn law_words_of_trimmed(s: Seq<char>)
    ensures
        words(trimmed(s)) == words(s),
{
    lemma_words_front(s);
    lemma_words_back(front_stripped(s, Margin::Space));
}

/// The text in a string is that string's own.
pub proof fn law_text_in(t: &str)
    ensures
        text_in(Some(t)) == Some(t@),
        text_in(None) is None,
{
}

} // verus!
