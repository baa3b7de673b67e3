//! Slash-separated paths, read lexically.
//!
//! A path is a text. Its components are what stands between the slashes;
//! repeated slashes, a trailing slash and `.` components other than a leading
//! one carry no meaning.

use vstd::prelude::*;

use crate::text::{chars, index_from, index_of, joined_texts, law_joining, lemma_index_from, same};

verus! {

/// What a path component is.
#[derive(Clone, Copy, Debug, PartialEq, Eq, Structural)]
pub enum Kind {
    /// The leading slash of an absolute path.
    Root,
    /// A leading `.`.
    Here,
    /// `..`.
    Up,
    /// An ordinary name.
    Name,
}

/// A component and where it stands in the path's text.
pub ghost struct Part {
    pub kind: Kind,
    pub start: int,
    pub end: int,
}

/// A component and where it stands in the path's text, in characters.
#[derive(Clone, Copy, Debug)]
pub struct Piece {
    pub kind: Kind,
    pub start: usize,
    pub end: usize,
}

impl View for Piece {
    type V = Part;

    open spec fn view(&self) -> Part {
        Part { kind: self.kind, start: self.start as int, end: self.end as int }
    }
}

impl DeepView for Piece {
    type V = Part;

    open spec fn deep_view(&self) -> Part {
        self@
    }
}

/// A component by its meaning: names are told apart by their text.
pub ghost enum Component {
    Root,
    Here,
    Up,
    Name(Seq<char>),
}

/// Whether the segment from `i` to `e` is a `.`.
pub open spec fn is_dot(p: Seq<char>, i: int, e: int) -> bool {
    e == i + 1 && p[i] == '.'
}

/// Whether the segment from `i` to `e` is a `..`.
pub open spec fn is_dotdot(p: Seq<char>, i: int, e: int) -> bool {
    e == i + 2 && p[i] == '.' && p[i + 1] == '.'
}

/// The components from position `i` on, where a segment begins.
pub open spec fn parts_from(p: Seq<char>, i: int) -> Seq<Part>
    decreases p.len() + 1 - i,
{
    if !(0 <= i < p.len()) {
        seq![]
    } else {
        proof {
            lemma_index_from(p, '/', i);
        }
        let e = index_from(p, '/', i);
        let rest = parts_from(p, e + 1);
        if e == i || is_dot(p, i, e) {
            rest
        } else if is_dotdot(p, i, e) {
            seq![Part { kind: Kind::Up, start: i, end: e }] + rest
        } else {
            seq![Part { kind: Kind::Name, start: i, end: e }] + rest
        }
    }
}

/// Whether `p` begins with a `.` component.
pub open spec fn leads_with_dot(p: Seq<char>) -> bool {
    p.len() > 0 && p[0] == '.' && (p.len() == 1 || p[1] == '/')
}

/// The components of `p`, with their places.
pub open spec fn parts(p: Seq<char>) -> Seq<Part> {
    if p.len() > 0 && p[0] == '/' {
        seq![Part { kind: Kind::Root, start: 0, end: 1 }] + parts_from(p, 1)
    } else if leads_with_dot(p) {
        seq![Part { kind: Kind::Here, start: 0, end: 1 }] + parts_from(p, 1)
    } else {
        parts_from(p, 0)
    }
}

/// The text of one component.
pub open spec fn part_text(p: Seq<char>, part: Part) -> Seq<char> {
    p.subrange(part.start, part.end)
}

/// The meaning of one component.
pub open spec fn meaning(p: Seq<char>, part: Part) -> Component {
    match part.kind {
        Kind::Root => Component::Root,
        Kind::Here => Component::Here,
        Kind::Up => Component::Up,
        Kind::Name => Component::Name(part_text(p, part)),
    }
}

/// The components of `p`.
pub open spec fn components(p: Seq<char>) -> Seq<Component> {
    Seq::new(parts(p).len(), |i: int| meaning(p, parts(p)[i]))
}

/// Parts in order, each within the text.
pub open spec fn well_placed(p: Seq<char>, ps: Seq<Part>, from: int) -> bool {
    &&& forall|i: int|
        0 <= i < ps.len() ==> {
            let q = #[trigger] ps[i];
            &&& from <= q.start < q.end <= p.len()
            &&& q.kind == Kind::Up ==> q.end == q.start + 2
            &&& q.kind == Kind::Name ==> forall|j: int| q.start <= j < q.end ==> p[j] != '/'
            &&& q.kind == Kind::Name ==> !is_dot(p, q.start, q.end) && !is_dotdot(
                p,
                q.start,
                q.end,
            )
        }
    &&& forall|i: int, j: int| 0 <= i < j < ps.len() ==> #[trigger] ps[i].end <= #[trigger] ps[j].start
}

/// Components come in order and lie within the text; a name holds no slash and
/// is neither `.` nor `..`.
pub proof fn lemma_parts_from_placed(p: Seq<char>, i: int)
    requires
        0 <= i,
    ensures
        well_placed(p, parts_from(p, i), i),
        forall|k: int|
            0 <= k < parts_from(p, i).len() ==> (#[trigger] parts_from(p, i)[k]).kind == Kind::Name
                || parts_from(p, i)[k].kind == Kind::Up,
    decreases p.len() + 1 - i,
{
    if i < p.len() {
        lemma_index_from(p, '/', i);
        let e = index_from(p, '/', i);
        lemma_parts_from_placed(p, e + 1);
    }
}

/// Components come in order and lie within the text.
pub proof fn lemma_parts_placed(p: Seq<char>)
    ensures
        well_placed(p, parts(p), 0),
        parts(p).len() > 0 ==> parts(p)[0].start == 0 || parts(p)[0].kind == Kind::Name
            || parts(p)[0].kind == Kind::Up,
{
    lemma_parts_from_placed(p, 0);
    lemma_parts_from_placed(p, 1);
}

/// Splits a path into its components.
pub fn pieces(p: &str) -> (v: Vec<Piece>)
    ensures
        v.deep_view() == parts(p@),
{
    let cs = chars(p);
    let n = cs.len();
    let mut v: Vec<Piece> = Vec::new();
    let mut i: usize = 0;
    if n > 0 && cs[0] == '/' {
        v.push(Piece { kind: Kind::Root, start: 0, end: 1 });
        i = 1;
    } else if n > 0 && cs[0] == '.' && (n == 1 || cs[1] == '/') {
        v.push(Piece { kind: Kind::Here, start: 0, end: 1 });
        i = 1;
    }
    assert(v.deep_view() + parts_from(p@, i as int) =~= parts(p@));
    while i < n
        invariant
            i <= n == cs.len(),
            cs@ == p@,
            v.deep_view() + parts_from(p@, i as int) == parts(p@),
        decreases n - i,
    {
        let e = index_of(&cs, '/', i);
        let ghost before = v.deep_view();
        let dot = e - i == 1 && cs[i] == '.';
        if e > i && !dot {
            let kind = if e - i == 2 && cs[i] == '.' && cs[i + 1] == '.' {
                Kind::Up
            } else {
                Kind::Name
            };
            let piece = Piece { kind, start: i, end: e };
            v.push(piece);
            assert(v.deep_view() =~= before.push(piece@));
            assert(v.deep_view() + parts_from(p@, e + 1) =~= before + parts_from(p@, i as int));
        }
        if e < n {
            i = e + 1;
        } else {
            assert(parts_from(p@, e + 1) =~= parts_from(p@, n as int));
            i = n;
        }
    }
    assert(v.deep_view() + parts_from(p@, n as int) =~= v.deep_view());
    v
}

/// Whether two pieces, each of its own path, mean the same component.
fn same_piece(a: &str, x: &Piece, b: &str, y: &Piece) -> (r: bool)
    requires
        x.start <= x.end <= a@.len(),
        y.start <= y.end <= b@.len(),
    ensures
        r == (meaning(a@, x@) == meaning(b@, y@)),
{
    match (x.kind, y.kind) {
        (Kind::Name, Kind::Name) => same(
            a.substring_char(x.start, x.end),
            b.substring_char(y.start, y.end),
        ),
        _ => x.kind == y.kind,
    }
}

/// Whether two paths have the same components.
pub open spec fn same_path(a: Seq<char>, b: Seq<char>) -> bool {
    components(a) == components(b)
}

/// Whether `p` is `mount` itself or lies below it: its components begin with
/// those of `mount`.
pub open spec fn lies_under(mount: Seq<char>, p: Seq<char>) -> bool {
    &&& components(mount).len() <= components(p).len()
    &&& components(p).take(components(mount).len() as int) == components(mount)
}

/// What is left of `p` below `mount`: the text from the first component that
/// is not of `mount` to the end of the last one.
pub open spec fn below(mount: Seq<char>, p: Seq<char>) -> Option<Seq<char>> {
    let k = parts(mount).len() as int;
    if !lies_under(mount, p) {
        None
    } else if k == parts(p).len() {
        Some(Seq::empty())
    } else {
        Some(p.subrange(parts(p)[k].start, parts(p).last().end))
    }
}

/// The path without its last component: `None` for an empty path and for the
/// root.
pub open spec fn parent(p: Seq<char>) -> Option<Seq<char>> {
    let ps = parts(p);
    if ps.len() == 0 || ps.last().kind == Kind::Root {
        None
    } else if ps.len() == 1 {
        Some(Seq::empty())
    } else {
        Some(p.take(ps[ps.len() - 2].end))
    }
}

/// The last component, where it is a name.
pub open spec fn file_name(p: Seq<char>) -> Option<Seq<char>> {
    let ps = parts(p);
    if ps.len() > 0 && ps.last().kind == Kind::Name {
        Some(part_text(p, ps.last()))
    } else {
        None
    }
}

/// `rel` seen from `base`; an absolute `rel` stands for itself.
pub open spec fn joined(base: Seq<char>, rel: Seq<char>) -> Seq<char> {
    if rel.len() > 0 && rel[0] == '/' {
        rel
    } else if base.len() > 0 && base.last() != '/' {
        base + seq!['/'] + rel
    } else {
        base + rel
    }
}

/// Whether the components of `mount` lead those of `p`.
fn leads(p: &str, xs: &Vec<Piece>, mount: &str, ys: &Vec<Piece>) -> (r: bool)
    requires
        xs.deep_view() == parts(p@),
        ys.deep_view() == parts(mount@),
    ensures
        r == lies_under(mount@, p@),
{
    proof {
        lemma_parts_placed(p@);
        lemma_parts_placed(mount@);
    }
    let ghost cp = components(p@);
    let ghost cm = components(mount@);
    if ys.len() > xs.len() {
        return false;
    }
    let mut i: usize = 0;
    while i < ys.len()
        invariant
            xs.deep_view() == parts(p@),
            ys.deep_view() == parts(mount@),
            well_placed(p@, parts(p@), 0),
            well_placed(mount@, parts(mount@), 0),
            i <= ys.len() <= xs.len(),
            cp == components(p@),
            cm == components(mount@),
            forall|j: int| 0 <= j < i ==> cp[j] == #[trigger] cm[j],
        decreases ys.len() - i,
    {
        assert(xs.deep_view()[i as int] == xs@[i as int]@);
        assert(ys.deep_view()[i as int] == ys@[i as int]@);
        if !same_piece(p, &xs[i], mount, &ys[i]) {
            assert(cp[i as int] != cm[i as int]);
            assert(cp.take(cm.len() as int)[i as int] != cm[i as int]);
            return false;
        }
        i = i + 1;
    }
    assert(cp.take(cm.len() as int) =~= cm);
    true
}

/// Whether two paths have the same components.
pub fn is_same_path(a: &str, b: &str) -> (r: bool)
    ensures
        r == same_path(a@, b@),
{
    let xs = pieces(a);
    let ys = pieces(b);
    let r = xs.len() == ys.len() && leads(a, &xs, b, &ys);
    assert(xs.deep_view().len() == components(a@).len());
    assert(ys.deep_view().len() == components(b@).len());
    assert(components(a@).len() == components(b@).len() ==> components(a@).take(
        components(b@).len() as int,
    ) =~= components(a@));
    r
}

/// Whether `p` is `mount` itself or lies below it.
pub fn is_below(mount: &str, p: &str) -> (r: bool)
    ensures
        r == lies_under(mount@, p@),
{
    let xs = pieces(p);
    let ys = pieces(mount);
    leads(p, &xs, mount, &ys)
}

/// What is left of `p` below `mount`.
pub fn strip_mount<'a>(mount: &str, p: &'a str) -> (r: Option<&'a str>)
    ensures
        match r {
            Some(t) => below(mount@, p@) == Some(t@),
            None => below(mount@, p@) is None,
        },
{
    let xs = pieces(p);
    let ys = pieces(mount);
    if !leads(p, &xs, mount, &ys) {
        return None;
    }
    proof {
        lemma_parts_placed(p@);
        assert(xs.deep_view().len() == parts(p@).len());
        assert(ys.deep_view().len() == parts(mount@).len());
    }
    let k = ys.len();
    if k == xs.len() {
        let t = p.substring_char(0, 0);
        assert(t@ =~= Seq::empty());
        Some(t)
    } else {
        assert(xs.deep_view()[k as int] == xs@[k as int]@);
        assert(xs.deep_view()[xs.len() - 1] == xs@[xs.len() - 1]@);
        Some(p.substring_char(xs[k].start, xs[xs.len() - 1].end))
    }
}

/// The path without its last component.
pub fn parent_path<'a>(p: &'a str) -> (r: Option<&'a str>)
    ensures
        match r {
            Some(t) => parent(p@) == Some(t@),
            None => parent(p@) is None,
        },
{
    let xs = pieces(p);
    let n = xs.len();
    proof {
        lemma_parts_placed(p@);
        assert(xs.deep_view().len() == parts(p@).len());
    }
    if n == 0 {
        return None;
    }
    assert(xs.deep_view()[n - 1] == xs@[n - 1]@);
    if xs[n - 1].kind == Kind::Root {
        None
    } else if n == 1 {
        let t = p.substring_char(0, 0);
        assert(t@ =~= Seq::empty());
        Some(t)
    } else {
        assert(xs.deep_view()[n - 2] == xs@[n - 2]@);
        let t = p.substring_char(0, xs[n - 2].end);
        assert(t@ =~= p@.take(xs[n - 2].end as int));
        Some(t)
    }
}

/// The last component, where it is a name.
pub fn last_name<'a>(p: &'a str) -> (r: Option<&'a str>)
    ensures
        match r {
            Some(t) => file_name(p@) == Some(t@),
            None => file_name(p@) is None,
        },
{
    let xs = pieces(p);
    let n = xs.len();
    proof {
        lemma_parts_placed(p@);
        assert(xs.deep_view().len() == parts(p@).len());
    }
    if n == 0 {
        return None;
    }
    assert(xs.deep_view()[n - 1] == xs@[n - 1]@);
    let last = xs[n - 1];
    if last.kind == Kind::Name {
        Some(p.substring_char(last.start, last.end))
    } else {
        None
    }
}

/// `rel` seen from `base`.
pub fn join(base: &str, rel: &str) -> (r: String)
    ensures
        r@ == joined(base@, rel@),
{
    let rs = chars(rel);
    if rs.len() > 0 && rs[0] == '/' {
        return rel.to_owned();
    }
    let bs = chars(base);
    let mut r = base.to_owned();
    if bs.len() > 0 && bs[bs.len() - 1] != '/' {
        r.append("/");
        proof {
            reveal_strlit("/");
            assert("/"@ =~= seq!['/']);
        }
    }
    r.append(rel);
    r
}

/// Components moved along by `k` characters.
pub open spec fn shifted(ps: Seq<Part>, k: int) -> Seq<Part> {
    Seq::new(
        ps.len(),
        |i: int| Part { kind: ps[i].kind, start: ps[i].start + k, end: ps[i].end + k },
    )
}

proof fn lemma_index_shift(x: Seq<char>, b: Seq<char>, j: int)
    requires
        0 <= j <= b.len(),
    ensures
        index_from(x + b, '/', x.len() + j) == x.len() + index_from(b, '/', j),
    decreases b.len() - j,
{
    if j < b.len() {
        assert((x + b)[x.len() + j] == b[j]);
        if b[j] != '/' {
            lemma_index_shift(x, b, j + 1);
        }
    }
}

proof fn lemma_parts_shift(x: Seq<char>, b: Seq<char>, j: int)
    requires
        0 <= j,
    ensures
        parts_from(x + b, x.len() + j) == shifted(parts_from(b, j), x.len() as int),
    decreases b.len() + 1 - j,
{
    let s = x + b;
    let k = x.len() as int;
    if j < b.len() {
        lemma_index_shift(x, b, j);
        lemma_index_from(b, '/', j);
        let e = index_from(b, '/', j);
        lemma_parts_shift(x, b, e + 1);
        assert(s[k + j] == b[j]);
        if j + 1 < b.len() {
            assert(s[k + j + 1] == b[j + 1]);
        }
        assert(parts_from(s, k + j) =~= shifted(parts_from(b, j), k));
    } else {
        assert(parts_from(s, k + j) =~= Seq::empty());
        assert(shifted(parts_from(b, j), k) =~= Seq::empty());
    }
}

proof fn lemma_index_before_slash(a: Seq<char>, b: Seq<char>, i: int)
    requires
        0 <= i <= a.len(),
    ensures
        index_from(a + seq!['/'] + b, '/', i) == index_from(a, '/', i),
    decreases a.len() - i,
{
    let s = a + seq!['/'] + b;
    if i < a.len() {
        assert(s[i] == a[i]);
        if a[i] != '/' {
            lemma_index_before_slash(a, b, i + 1);
        }
    } else {
        assert(s[i] == '/');
    }
}

proof fn lemma_parts_split(a: Seq<char>, b: Seq<char>, i: int)
    requires
        0 <= i <= a.len(),
    ensures
        parts_from(a + seq!['/'] + b, i) == parts_from(a, i) + shifted(
            parts_from(b, 0),
            a.len() as int + 1,
        ),
    decreases a.len() - i,
{
    let s = a + seq!['/'] + b;
    let tail = shifted(parts_from(b, 0), a.len() as int + 1);
    assert(s =~= (a + seq!['/']) + b);
    lemma_parts_shift(a + seq!['/'], b, 0);
    lemma_index_before_slash(a, b, i);
    lemma_index_from(a, '/', i);
    let e = index_from(a, '/', i);
    if i < a.len() {
        assert(s[i] == a[i]);
        if i + 1 < a.len() {
            assert(s[i + 1] == a[i + 1]);
        }
        if e < a.len() {
            lemma_parts_split(a, b, e + 1);
        } else {
            assert(parts_from(a, e + 1) =~= Seq::empty());
        }
        assert(parts_from(s, i) =~= parts_from(a, i) + tail);
    } else {
        assert(s[i] == '/');
        assert(parts_from(a, i) =~= Seq::empty());
        assert(parts_from(s, i) =~= tail);
    }
}

proof fn lemma_same_meaning(p: Seq<char>, q: Seq<char>, x: Part, y: Part)
    requires
        x.kind == y.kind,
        x.kind == Kind::Name ==> part_text(p, x) == part_text(q, y),
    ensures
        meaning(p, x) == meaning(q, y),
{
}

/// Where the components after the root or a leading `.` begin.
pub open spec fn body_start(p: Seq<char>) -> int {
    if p.len() > 0 && p[0] == '/' || leads_with_dot(p) {
        1
    } else {
        0
    }
}

proof fn lemma_joined_parts(base: Seq<char>, rel: Seq<char>)
    requires
        base.len() > 0,
        rel.len() > 0,
        rel[0] != '/',
    ensures
        parts(joined(base, rel)) == parts(base) + shifted(
            parts_from(rel, 0),
            joined(base, rel).len() - rel.len(),
        ),
{
    let s = joined(base, rel);
    let o = body_start(base);
    let k = s.len() - rel.len();
    assert(s =~= s.take(k) + rel);
    assert(s[0] == base[0]);
    if base.len() > 1 {
        assert(s[1] == base[1]);
    } else if base.last() != '/' {
        assert(s[1] == '/');
    }
    assert(body_start(s) == o);
    if base.last() != '/' {
        lemma_parts_split(base, rel, o);
    } else {
        let a = base.drop_last();
        assert(base =~= a + seq!['/'] + Seq::<char>::empty());
        assert(s =~= a + seq!['/'] + rel);
        if o <= a.len() {
            lemma_parts_split(a, rel, o);
            lemma_parts_split(a, Seq::empty(), o);
            assert(shifted(parts_from(Seq::empty(), 0), a.len() as int + 1) =~= Seq::empty());
            assert(parts_from(base, o) =~= parts_from(a, o));
        } else {
            lemma_parts_shift(base, rel, 0);
            assert(parts_from(base, o) =~= Seq::empty());
        }
    }
    let tail = shifted(parts_from(rel, 0), k);
    assert(parts_from(s, o) =~= parts_from(base, o) + tail);
    assert(parts(s) =~= parts(base) + tail);
}

proof fn lemma_joined_base(base: Seq<char>, rel: Seq<char>, i: int)
    requires
        base.len() > 0,
        rel.len() > 0,
        rel[0] != '/',
        0 <= i < parts(base).len(),
    ensures
        i < parts(joined(base, rel)).len(),
        components(joined(base, rel))[i] == components(base)[i],
{
    let s = joined(base, rel);
    let q = parts(base)[i];
    lemma_joined_parts(base, rel);
    lemma_parts_placed(base);
    assert(parts(s)[i] == q);
    assert(part_text(s, q) =~= part_text(base, q));
    lemma_same_meaning(s, base, q, q);
}

/// A relative path joined to a base lies under the base, by its text alone.
pub proof fn lemma_joined_under(base: Seq<char>, rel: Seq<char>)
    requires
        rel.len() > 0,
        rel[0] != '/',
    ensures
        lies_under(base, joined(base, rel)),
{
    let s = joined(base, rel);
    let n = parts(base).len() as int;
    if base.len() > 0 {
        lemma_joined_parts(base, rel);
        assert forall|i: int| 0 <= i < n implies components(s).take(n)[i] == #[trigger] components(
            base,
        )[i] by {
            lemma_joined_base(base, rel, i);
        }
    } else {
        assert(parts(base) =~= Seq::empty());
    }
    assert(components(s).take(n) =~= components(base));
}

/// A path joined to a base has the components of the base, then its own. It
/// must not begin with a slash or with a `.` component.
pub proof fn lemma_joined_components(base: Seq<char>, rel: Seq<char>)
    requires
        rel.len() > 0,
        rel[0] != '/',
        !leads_with_dot(rel),
    ensures
        components(joined(base, rel)) == components(base) + components(rel),
        parts(joined(base, rel)) == parts(base) + shifted(
            parts(rel),
            joined(base, rel).len() - rel.len(),
        ),
{
    let s = joined(base, rel);
    if base.len() == 0 {
        assert(s =~= rel);
        assert(parts(base) =~= Seq::empty());
        assert(components(base) + components(rel) =~= components(rel));
        assert(parts(base) + shifted(parts(rel), 0) =~= parts(rel));
    } else {
        let k = s.len() - rel.len();
        let tail = shifted(parts(rel), k);
        lemma_joined_parts(base, rel);
        lemma_parts_placed(rel);
        assert(s =~= s.take(k) + rel);
        let n = parts(base).len() as int;
        let cs = components(base) + components(rel);
        assert forall|i: int| 0 <= i < cs.len() implies components(s)[i] == #[trigger] cs[i] by {
            if i < n {
                lemma_joined_base(base, rel, i);
            } else {
                let q = parts(rel)[i - n];
                let t = tail[i - n];
                assert(parts(s)[i] == t);
                assert(part_text(s, t) =~= part_text(rel, q));
                lemma_same_meaning(s, rel, t, q);
            }
        }
        assert(components(s) =~= cs);
    }
}

proof fn lemma_index_take(p: Seq<char>, i: int, e: int)
    requires
        0 <= i <= e <= p.len(),
    ensures
        index_from(p.take(e), '/', i) == if index_from(p, '/', i) < e {
            index_from(p, '/', i)
        } else {
            e
        },
    decreases e - i,
{
    lemma_index_from(p, '/', i);
    if i < e {
        assert(p.take(e)[i] == p[i]);
        if p[i] != '/' {
            lemma_index_take(p, i + 1, e);
        }
    }
}

proof fn lemma_parts_take(p: Seq<char>, i: int, j: int)
    requires
        0 <= i,
        0 <= j < parts_from(p, i).len(),
    ensures
        parts_from(p.take(parts_from(p, i)[j].end), i) == parts_from(p, i).take(j + 1),
    decreases p.len() + 1 - i,
{
    let ps = parts_from(p, i);
    lemma_parts_from_placed(p, i);
    lemma_index_from(p, '/', i);
    let e = ps[j].end;
    let q = p.take(e);
    let x = index_from(p, '/', i);
    let rest = parts_from(p, x + 1);
    lemma_parts_from_placed(p, x + 1);
    if x == i || is_dot(p, i, x) {
        lemma_index_take(p, i, e);
        lemma_parts_take(p, x + 1, j);
    } else if j == 0 {
        lemma_index_take(p, i, e);
        assert(parts_from(q, x + 1) =~= Seq::empty());
        assert(parts_from(q, i) =~= ps.take(1));
    } else {
        assert(ps[j] == rest[j - 1]);
        lemma_index_take(p, i, e);
        lemma_parts_take(p, x + 1, j - 1);
        assert(parts_from(q, i) =~= ps.take(j + 1));
    }
}

proof fn lemma_parent_parts(p: Seq<char>)
    requires
        parent(p) is Some,
    ensures
        parent(p)->0.len() < p.len(),
        parts(parent(p)->0) == parts(p).drop_last(),
{
    let ps = parts(p);
    let n = ps.len() as int;
    let q = parent(p)->0;
    lemma_parts_placed(p);
    if n == 1 {
        assert(parts(q) =~= ps.drop_last());
    } else {
        let e = ps[n - 2].end;
        assert(ps[n - 2].end <= ps[n - 1].start);
        let o = body_start(p);
        let j = n - 2 - o;
        assert(q[0] == p[0]);
        if q.len() > 1 {
            assert(q[1] == p[1]);
        }
        if j < 0 {
            assert(parts_from(q, 1) =~= Seq::empty());
            assert(parts(q) =~= ps.drop_last());
        } else {
            assert(ps[n - 2] == parts_from(p, o)[j]);
            lemma_parts_take(p, o, j);
            lemma_parts_from_placed(p, o);
            assert(body_start(q) == o);
            assert(parts(q) =~= ps.drop_last());
        }
    }
}

/// The path above another is shorter, and has its components but the last.
pub proof fn lemma_parent_components(p: Seq<char>)
    requires
        parent(p) is Some,
    ensures
        parent(p)->0.len() < p.len(),
        parent(p)->0 == p.take(parent(p)->0.len() as int),
        parts(p).len() > 0,
        parts(parent(p)->0) == parts(p).drop_last(),
        components(parent(p)->0) == components(p).drop_last(),
{
    let ps = parts(p);
    let q = parent(p)->0;
    lemma_parent_parts(p);
    lemma_parts_placed(q);
    lemma_parts_placed(p);
    let cs = components(p).drop_last();
    assert forall|i: int| 0 <= i < cs.len() implies components(q)[i] == #[trigger] cs[i] by {
        let x = ps[i];
        assert(parts(q)[i] == x);
        assert(q == p.take(q.len() as int));
        assert(part_text(q, x) =~= part_text(p, x));
        lemma_same_meaning(q, p, x, x);
    }
    assert(components(q) =~= cs);
    assert(q =~= p.take(q.len() as int));
}

proof fn lemma_no_slash(s: Seq<char>, i: int)
    requires
        0 <= i <= s.len(),
        forall|j: int| 0 <= j < s.len() ==> #[trigger] s[j] != '/',
    ensures
        index_from(s, '/', i) == s.len(),
    decreases s.len() - i,
{
    if i < s.len() {
        assert(s[i] != '/');
        lemma_no_slash(s, i + 1);
    }
}

/// Whether a text is one name.
pub open spec fn is_name(s: Seq<char>) -> bool {
    &&& s.len() > 0
    &&& forall|j: int| 0 <= j < s.len() ==> #[trigger] s[j] != '/'
    &&& !is_dot(s, 0, s.len() as int)
    &&& !is_dotdot(s, 0, s.len() as int)
}

/// A name is a path of one component.
pub proof fn lemma_name_parts(s: Seq<char>)
    requires
        is_name(s),
    ensures
        parts(s) == seq![Part { kind: Kind::Name, start: 0, end: s.len() as int }],
        s[0] != '/',
        !leads_with_dot(s),
{
    lemma_no_slash(s, 0);
    assert(s[0] != '/');
    if s.len() > 1 {
        assert(s[1] != '/');
    }
    assert(parts_from(s, s.len() as int + 1) =~= Seq::empty());
    assert(parts_from(s, 0) =~= seq![
        Part { kind: Kind::Name, start: 0, end: s.len() as int },
    ]);
}

spec fn body(p: Seq<char>, i: int) -> Seq<Component> {
    Seq::new(parts_from(p, i).len(), |k: int| meaning(p, parts_from(p, i)[k]))
}

proof fn lemma_body_after(x: Seq<char>, b: Seq<char>)
    ensures
        body(x + b, x.len() as int) == body(b, 0),
{
    let s = x + b;
    let k = x.len() as int;
    lemma_parts_shift(x, b, 0);
    lemma_parts_from_placed(b, 0);
    assert forall|i: int| 0 <= i < parts_from(b, 0).len() implies body(s, k)[i] == #[trigger] body(
        b,
        0,
    )[i] by {
        let q = parts_from(b, 0)[i];
        let t = parts_from(s, k)[i];
        assert(part_text(s, t) =~= part_text(b, q));
        lemma_same_meaning(s, b, t, q);
    }
    assert(body(s, k) =~= body(b, 0));
}

proof fn lemma_body_split(a: Seq<char>, b: Seq<char>)
    ensures
        body(a + seq!['/'] + b, 0) == body(a, 0) + body(b, 0),
{
    let x = a + seq!['/'];
    let s = x + b;
    let n = parts_from(a, 0).len() as int;
    lemma_parts_split(a, b, 0);
    lemma_parts_from_placed(a, 0);
    lemma_parts_from_placed(b, 0);
    let both = body(a, 0) + body(b, 0);
    assert forall|i: int| 0 <= i < both.len() implies body(s, 0)[i] == #[trigger] both[i] by {
        let t = parts_from(s, 0)[i];
        if i < n {
            let q = parts_from(a, 0)[i];
            assert(part_text(s, t) =~= part_text(a, q));
            lemma_same_meaning(s, a, t, q);
        } else {
            let q = parts_from(b, 0)[i - n];
            assert(part_text(s, t) =~= part_text(b, q));
            lemma_same_meaning(s, b, t, q);
        }
    }
    assert(body(s, 0) =~= both);
}

/// What a segment between slashes stands for, but for a leading `.`.
pub open spec fn segment(a: Seq<char>) -> Seq<Component> {
    if a.len() == 0 || a == seq!['.'] {
        Seq::empty()
    } else if a == seq!['.', '.'] {
        seq![Component::Up]
    } else {
        seq![Component::Name(a)]
    }
}

proof fn lemma_body_segment(a: Seq<char>)
    requires
        !a.contains('/'),
    ensures
        body(a, 0) == segment(a),
{
    assert forall|j: int| 0 <= j < a.len() implies #[trigger] a[j] != '/' by {
        if a[j] == '/' {
            assert(a.contains('/'));
        }
    }
    if a.len() > 0 {
        let n = a.len() as int;
        lemma_no_slash(a, 0);
        assert(parts_from(a, n + 1) =~= Seq::empty());
        if n == 1 && a[0] == '.' {
            assert(a =~= seq!['.']);
        } else if n == 2 && a[0] == '.' && a[1] == '.' {
            assert(a =~= seq!['.', '.']);
            assert(parts_from(a, 0) =~= seq![Part { kind: Kind::Up, start: 0, end: 2 }]);
        } else {
            assert(parts_from(a, 0) =~= seq![Part { kind: Kind::Name, start: 0, end: n }]);
            assert(part_text(a, parts_from(a, 0)[0]) =~= a);
            assert(a != seq!['.', '.']) by {
                assert(seq!['.', '.'][0] == '.' && seq!['.', '.'][1] == '.');
            }
            assert(a != seq!['.']) by {
                assert(seq!['.'][0] == '.');
            }
        }
    }
    assert(body(a, 0) =~= segment(a));
}

proof fn lemma_rooted(rest: Seq<char>)
    ensures
        components(seq!['/'] + rest) == seq![Component::Root] + body(rest, 0),
{
    let p = seq!['/'] + rest;
    lemma_body_after(seq!['/'], rest);
    lemma_parts_placed(p);
    let all = seq![Component::Root] + body(rest, 0);
    assert forall|i: int| 0 <= i < all.len() implies components(p)[i] == #[trigger] all[i] by {
        if i > 0 {
            assert(parts(p)[i] == parts_from(p, 1)[i - 1]);
            assert(body(p, 1)[i - 1] == meaning(p, parts_from(p, 1)[i - 1]));
        }
    }
    assert(components(p) =~= all);
}

/// A path from the root is the root, then what its segments stand for, one
/// after the other: an empty segment and a `.` stand for nothing, a `..` leads
/// up, and any other is a name.
pub proof fn law_segments_from_root(a: Seq<char>, rest: Seq<char>)
    requires
        !a.contains('/'),
    ensures
        components(seq!['/'] + a) == seq![Component::Root] + segment(a),
        components(seq!['/'] + a + seq!['/'] + rest) == seq![Component::Root] + segment(a)
            + components(seq!['/'] + rest).skip(1),
{
    lemma_rooted(a);
    lemma_body_segment(a);
    lemma_rooted(a + seq!['/'] + rest);
    lemma_body_split(a, rest);
    lemma_rooted(rest);
    assert(seq!['/'] + a + seq!['/'] + rest =~= seq!['/'] + (a + seq!['/'] + rest));
    assert(components(seq!['/'] + rest).skip(1) =~= body(rest, 0));
    assert(seq![Component::Root] + segment(a) + body(rest, 0) =~= seq![Component::Root] + (segment(
        a,
    ) + body(rest, 0)));
}

/// A relative path is what its segments stand for, one after the other; a `.`
/// counts where it comes first, and only there.
pub proof fn law_segments(a: Seq<char>, rest: Seq<char>)
    requires
        a.len() > 0,
        !a.contains('/'),
    ensures
        ({
            let first = if a == seq!['.'] {
                seq![Component::Here]
            } else {
                segment(a)
            };
            &&& components(a) == first
            &&& components(a + seq!['/'] + rest) == first + components(seq!['/'] + rest).skip(1)
        }),
        components(Seq::empty()).len() == 0,
{
    let p = a + seq!['/'] + rest;
    lemma_rooted(rest);
    assert(components(seq!['/'] + rest).skip(1) =~= body(rest, 0));
    lemma_body_segment(a);
    lemma_body_split(a, rest);
    assert(p[0] == a[0]);
    assert(a[0] != '/') by {
        if a[0] == '/' {
            assert(a.contains('/'));
        }
    }
    if a == seq!['.'] {
        let x = seq!['.', '/'];
        assert(p =~= x + rest);
        assert(p[1] == '/');
        lemma_body_after(x, rest);
        assert(index_from(p, '/', 1) == 1);
        assert(parts_from(p, 1) == parts_from(p, 2));
        let all = seq![Component::Here] + body(rest, 0);
        assert forall|i: int| 0 <= i < all.len() implies components(p)[i] == #[trigger] all[i] by {
            if i > 0 {
                assert(parts(p)[i] == parts_from(p, 2)[i - 1]);
                assert(body(p, 2)[i - 1] == meaning(p, parts_from(p, 2)[i - 1]));
            }
        }
        assert(components(p) =~= all);
        assert(parts_from(a, 1) =~= Seq::empty());
        assert(components(a) =~= seq![Component::Here]);
    } else {
        if a.len() > 1 {
            assert(p[1] == a[1]);
            assert(a[1] != '/') by {
                if a[1] == '/' {
                    assert(a.contains('/'));
                }
            }
        } else if a[0] == '.' {
            assert(a =~= seq!['.']);
        }
        assert(!leads_with_dot(p));
        assert(!leads_with_dot(a));
        assert(components(p) =~= body(p, 0));
        assert(components(a) =~= body(a, 0));
    }
}

/// A path lies under another where its components are those of the other and
/// then any.
pub proof fn law_lies_under(mount: Seq<char>, p: Seq<char>)
    ensures
        lies_under(mount, p) <==> exists|more: Seq<Component>|
            components(p) == #[trigger] (components(mount) + more),
        same_path(mount, p) <==> components(mount) == components(p),
{
    let n = components(mount).len() as int;
    if lies_under(mount, p) {
        assert(components(p) =~= components(mount) + components(p).skip(n));
    }
    if exists|more: Seq<Component>| components(p) == #[trigger] (components(mount) + more) {
        let more = choose|more: Seq<Component>|
            components(p) == #[trigger] (components(mount) + more);
        assert((components(mount) + more).take(n) =~= components(mount));
    }
}

/// A name below a directory has that name, and the directory above it.
pub proof fn law_name_in_directory(dir: Seq<char>, name: Seq<char>)
    requires
        dir.len() > 0,
        dir.last() != '/',
        dir.last() != '.',
        is_name(name),
    ensures
        file_name(dir + seq!['/'] + name) == Some(name),
        parent(dir + seq!['/'] + name) == Some(dir),
        file_name(name) == Some(name),
        parent(name) == Some(Seq::<char>::empty()),
        parent(Seq::empty()) is None,
{
    let p = dir + seq!['/'] + name;
    lemma_name_parts(name);
    lemma_joined_components(dir, name);
    assert(joined(dir, name) == p);
    let k = dir.len() as int + 1;
    let ps = parts(p);
    assert(ps.last() == (Part { kind: Kind::Name, start: k, end: k + name.len() }));
    assert(p.subrange(k, k + name.len()) =~= name);
    lemma_last_end(dir, body_start(dir));
    let qs = parts(dir);
    assert(ps =~= qs.push(ps.last()));
    assert(qs.len() > 0 && qs.last().end == dir.len()) by {
        if body_start(dir) < dir.len() {
            assert(qs.last() == parts_from(dir, body_start(dir)).last());
        } else {
            assert(dir[0] == dir.last());
        }
    }
    assert(ps[ps.len() - 2] == qs.last());
    assert(p.take(dir.len() as int) =~= dir);
    assert(name.subrange(0, name.len() as int) =~= name);
}

proof fn lemma_last_end(p: Seq<char>, i: int)
    requires
        0 <= i < p.len(),
        p.last() != '/',
        p.last() != '.',
    ensures
        parts_from(p, i).len() > 0,
        parts_from(p, i).last().end == p.len(),
    decreases p.len() - i,
{
    lemma_index_from(p, '/', i);
    let e = index_from(p, '/', i);
    assert(p[p.len() - 1] != '/');
    if e < p.len() {
        assert(e + 1 < p.len());
        lemma_last_end(p, e + 1);
    } else {
        assert(parts_from(p, e + 1) =~= Seq::empty());
    }
}

/// Names are told from `.` and `..` and hold no slash.
pub proof fn law_names(s: Seq<char>)
    ensures
        is_name(s) <==> s.len() > 0 && !s.contains('/') && s != seq!['.'] && s != seq!['.', '.'],
{
    if s == seq!['.'] {
        assert(s[0] == '.');
    }
    if s == seq!['.', '.'] {
        assert(s[0] == '.' && s[1] == '.');
    }
    if s.len() > 0 && !s.contains('/') {
        assert forall|j: int| 0 <= j < s.len() implies #[trigger] s[j] != '/' by {
            if s[j] == '/' {
                assert(s.contains('/'));
            }
        }
        if is_dot(s, 0, s.len() as int) {
            assert(s =~= seq!['.']);
        }
        if is_dotdot(s, 0, s.len() as int) {
            assert(s =~= seq!['.', '.']);
        }
    }
}

/// What segments stand for, one after the other, but for a leading `.`.
pub open spec fn segments(names: Seq<Seq<char>>) -> Seq<Component>
    decreases names.len(),
{
    if names.len() == 0 {
        Seq::empty()
    } else {
        segment(names[0]) + segments(names.skip(1))
    }
}

proof fn lemma_rooted_segments(names: Seq<Seq<char>>)
    requires
        names.len() > 0,
        forall|i: int| 0 <= i < names.len() ==> !(#[trigger] names[i]).contains('/'),
    ensures
        components(seq!['/'] + joined_texts(names, seq!['/'])) == seq![Component::Root] + segments(
            names,
        ),
    decreases names.len(),
{
    let rest = names.skip(1);
    let slash = seq!['/'];
    assert forall|i: int| 0 <= i < rest.len() implies !(#[trigger] rest[i]).contains('/') by {
        assert(rest[i] == names[i + 1]);
    }
    if rest.len() == 0 {
        assert(names =~= seq![names[0]]);
        law_segments_from_root(names[0], Seq::empty());
        assert(segment(names[0]) + segments(rest) =~= segment(names[0]));
    } else {
        lemma_rooted_segments(rest);
        lemma_joined_front(names);
        law_segments_from_root(names[0], joined_texts(rest, slash));
        let p = slash + joined_texts(names, slash);
        assert(p =~= slash + names[0] + slash + joined_texts(rest, slash));
        assert(components(slash + joined_texts(rest, slash)).skip(1) =~= segments(rest));
        assert(components(p) =~= seq![Component::Root] + segments(names));
    }
}

proof fn lemma_joined_front(names: Seq<Seq<char>>)
    requires
        names.len() > 1,
    ensures
        joined_texts(names, seq!['/']) == names[0] + seq!['/'] + joined_texts(
            names.skip(1),
            seq!['/'],
        ),
{
    law_joining(seq![names[0]], names.skip(1), seq!['/']);
    assert(seq![names[0]] + names.skip(1) =~= names);
}

/// The components of a path are what stands between its slashes, in its order:
/// names stay names, a `..` leads up, and a `.` counts at the front alone.
pub proof fn law_path_of_segments(names: Seq<Seq<char>>)
    requires
        names.len() > 0,
        names[0].len() > 0,
        forall|i: int| 0 <= i < names.len() ==> !(#[trigger] names[i]).contains('/'),
    ensures
        components(joined_texts(names, seq!['/'])) == (if names[0] == seq!['.'] {
            seq![Component::Here]
        } else {
            segment(names[0])
        }) + segments(names.skip(1)),
        (forall|i: int| 0 <= i < names.len() ==> is_name(#[trigger] names[i])) ==> components(
            joined_texts(names, seq!['/']),
        ) == names.map_values(|n: Seq<char>| Component::Name(n)),
{
    let rest = names.skip(1);
    let slash = seq!['/'];
    let p = joined_texts(names, slash);
    assert forall|i: int| 0 <= i < rest.len() implies !(#[trigger] rest[i]).contains('/') by {
        assert(rest[i] == names[i + 1]);
    }
    let first = if names[0] == seq!['.'] {
        seq![Component::Here]
    } else {
        segment(names[0])
    };
    if rest.len() == 0 {
        assert(names =~= seq![names[0]]);
        law_segments(names[0], Seq::empty());
        assert(first + segments(rest) =~= first);
    } else {
        lemma_rooted_segments(rest);
        lemma_joined_front(names);
        law_segments(names[0], joined_texts(rest, slash));
        assert(components(slash + joined_texts(rest, slash)).skip(1) =~= segments(rest));
    }
    if forall|i: int| 0 <= i < names.len() ==> is_name(#[trigger] names[i]) {
        law_names(names[0]);
        lemma_segments_of_names(names);
        assert(segments(names) == segment(names[0]) + segments(rest));
    }
}

proof fn lemma_segments_of_names(names: Seq<Seq<char>>)
    requires
        forall|i: int| 0 <= i < names.len() ==> is_name(#[trigger] names[i]),
    ensures
        segments(names) == names.map_values(|n: Seq<char>| Component::Name(n)),
    decreases names.len(),
{
    if names.len() > 0 {
        let rest = names.skip(1);
        assert forall|i: int| 0 <= i < rest.len() implies is_name(#[trigger] rest[i]) by {
            assert(rest[i] == names[i + 1]);
        }
        lemma_segments_of_names(rest);
        law_names(names[0]);
    }
    assert(segments(names) =~= names.map_values(|n: Seq<char>| Component::Name(n)));
}

proof fn lemma_segments_hold(names: Seq<Seq<char>>, k: int)
    requires
        0 <= k < names.len(),
        names[k] == seq!['.', '.'],
    ensures
        segments(names).contains(Component::Up),
    decreases names.len(),
{
    let rest = names.skip(1);
    let n = segment(names[0]).len() as int;
    if k == 0 {
        assert(names[0].len() == 2);
        assert(names[0] != seq!['.']) by {
            assert(seq!['.'].len() == 1);
        }
        assert(segments(names)[0] == Component::Up);
    } else {
        assert(rest[k - 1] == names[k]);
        lemma_segments_hold(rest, k - 1);
        let j = choose|j: int| 0 <= j < segments(rest).len() && segments(rest)[j] == Component::Up;
        assert(segments(names)[n + j] == Component::Up);
    }
}

/// A `..` between slashes leads up, wherever it stands.
pub proof fn lemma_segment_stands(names: Seq<Seq<char>>, k: int)
    requires
        0 <= k < names.len(),
        names[0].len() > 0,
        forall|i: int| 0 <= i < names.len() ==> !(#[trigger] names[i]).contains('/'),
        names[k] == seq!['.', '.'],
    ensures
        exists|j: int|
            0 <= j < components(joined_texts(names, seq!['/'])).len() && #[trigger] components(
                joined_texts(names, seq!['/']),
            )[j] == Component::Up,
{
    let all = components(joined_texts(names, seq!['/']));
    law_path_of_segments(names);
    if k == 0 {
        assert(names[0].len() == 2);
        assert(names[0] != seq!['.']) by {
            assert(seq!['.'].len() == 1);
        }
        assert(all[0] == Component::Up);
    } else {
        let rest = names.skip(1);
        assert(rest[k - 1] == names[k]);
        lemma_segments_hold(rest, k - 1);
        let j = choose|j: int| 0 <= j < segments(rest).len() && segments(rest)[j] == Component::Up;
        assert(all[all.len() - segments(rest).len() + j] == Component::Up);
    }
}

proof fn lemma_joined_names(names: Seq<Seq<char>>)
    requires
        names.len() > 0,
        forall|i: int| 0 <= i < names.len() ==> is_name(#[trigger] names[i]),
    ensures
        ({
            let p = joined_texts(names, seq!['/']);
            &&& p.len() > 0
            &&& p[0] != '/'
            &&& p.last() != '/'
            &&& parts(p).len() == names.len()
            &&& parts(p)[0].start == 0
            &&& parts(p).last().kind == Kind::Name
            &&& parts(p).last().end == p.len()
            &&& part_text(p, parts(p).last()) == names.last()
        }),
    decreases names.len(),
{
    let p = joined_texts(names, seq!['/']);
    let name = names[names.len() - 1];
    lemma_name_parts(name);
    assert(name[name.len() - 1] != '/');
    if names.len() == 1 {
        assert(part_text(p, parts(p)[0]) =~= name);
    } else {
        let init = names.drop_last();
        assert forall|i: int| 0 <= i < init.len() implies is_name(#[trigger] init[i]) by {
            assert(init[i] == names[i]);
        }
        lemma_joined_names(init);
        let q = joined_texts(init, seq!['/']);
        lemma_joined_components(q, name);
        assert(joined(q, name) == p);
        let k = q.len() as int + 1;
        assert(parts(p).last() == (Part { kind: Kind::Name, start: k, end: k + name.len() }));
        assert(p.subrange(k, k + name.len()) =~= name);
    }
}

/// The last of the names of a path is its own, and the others are the path
/// above it.
pub proof fn law_names_of_a_path(names: Seq<Seq<char>>)
    requires
        names.len() > 0,
        forall|i: int| 0 <= i < names.len() ==> is_name(#[trigger] names[i]),
    ensures
        file_name(joined_texts(names, seq!['/'])) == Some(names.last()),
        parent(joined_texts(names, seq!['/'])) == Some(joined_texts(names.drop_last(), seq!['/'])),
{
    let p = joined_texts(names, seq!['/']);
    let init = names.drop_last();
    let q = joined_texts(init, seq!['/']);
    lemma_joined_names(names);
    if names.len() > 1 {
        let name = names[names.len() - 1];
        assert forall|i: int| 0 <= i < init.len() implies is_name(#[trigger] init[i]) by {
            assert(init[i] == names[i]);
        }
        lemma_joined_names(init);
        lemma_name_parts(name);
        lemma_joined_components(q, name);
        assert(joined(q, name) == p);
        assert(parts(p)[parts(p).len() - 2] == parts(q).last());
        assert(p.take(q.len() as int) =~= q);
    }
}

/// What is left of a path of names below the mount is that path.
pub proof fn law_below_the_mount(mount: Seq<char>, names: Seq<Seq<char>>)
    requires
        mount.len() > 0,
        names.len() > 0,
        forall|i: int| 0 <= i < names.len() ==> is_name(#[trigger] names[i]),
    ensures
        below(mount, joined(mount, joined_texts(names, seq!['/']))) == Some(
            joined_texts(names, seq!['/']),
        ),
        below(mount, mount) == Some(Seq::<char>::empty()),
        file_name(joined(mount, joined_texts(names, seq!['/']))) == Some(names.last()),
{
    let rel = joined_texts(names, seq!['/']);
    let p = joined(mount, rel);
    lemma_joined_names(names);
    lemma_names_lead(names);
    lemma_parts_placed(rel);
    lemma_joined_components(mount, rel);
    lemma_joined_under(mount, rel);
    let k = p.len() - rel.len();
    let n = parts(mount).len() as int;
    assert(parts(p)[n] == shifted(parts(rel), k)[0]);
    assert(parts(p).last() == shifted(parts(rel), k).last());
    assert(p.subrange(k, p.len() as int) =~= rel);
    assert(part_text(p, parts(p).last()) =~= part_text(rel, parts(rel).last()));
    assert(components(mount).take(components(mount).len() as int) =~= components(mount));
}

proof fn lemma_names_lead(names: Seq<Seq<char>>)
    requires
        names.len() > 0,
        forall|i: int| 0 <= i < names.len() ==> is_name(#[trigger] names[i]),
    ensures
        !leads_with_dot(joined_texts(names, seq!['/'])),
{
    let p = joined_texts(names, seq!['/']);
    assert forall|i: int| 0 <= i < names.len() implies (#[trigger] names[i]).len() > 0
        && !names[i].contains('/') by {
        law_names(names[i]);
    }
    law_path_of_segments(names);
    if leads_with_dot(p) {
        assert(parts(p)[0].kind == Kind::Here);
        assert(components(p)[0] == Component::Here);
        assert(names.map_values(|n: Seq<char>| Component::Name(n))[0] == Component::Name(names[0]));
    }
}

} // verus!
