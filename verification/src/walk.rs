//! Finding the runner's own cgroups: a walk over the whole tree, and the order
//! in which what it found may be removed.

use vstd::prelude::*;
use vstd::multiset::Multiset;
use vstd::seq_lib::lemma_multiset_commutative;

use crate::cgroup::{is_transient, is_transient_leaf_name, under_any_base, under_bases};
use crate::nest::under;
use crate::order::{
    lemma_precedes_irreflexive, lemma_precedes_total, lemma_precedes_transitive, precedes,
    sorts_before,
};
use crate::sort::{sorted, Sortable};
use crate::text::{begins, borrowed, owned};

verus! {

/// How deep below the mount directories are still listed.
pub const MAX_WALK_DEPTH: usize = 128;

/// What listing a directory says of one thing in it. The caller knows it again
/// by its number.
#[derive(Debug)]
pub struct Entry {
    pub id: usize,
    pub name: String,
    pub is_dir: bool,
    /// Whether it holds a `cgroup.procs`.
    pub is_cgroup: bool,
}

/// A directory by its number, its place below the mount and its depth.
#[derive(Debug)]
pub struct Found {
    pub id: usize,
    pub rel: String,
    pub depth: usize,
}

/// What an `Entry` says.
pub ghost struct EntryText {
    pub id: usize,
    pub name: Seq<char>,
    pub is_dir: bool,
    pub is_cgroup: bool,
}

/// What a `Found` says.
pub ghost struct Place {
    pub id: usize,
    pub rel: Seq<char>,
    pub depth: int,
}

impl View for Entry {
    type V = EntryText;

    open spec fn view(&self) -> EntryText {
        EntryText {
            id: self.id,
            name: self.name@,
            is_dir: self.is_dir,
            is_cgroup: self.is_cgroup,
        }
    }
}

impl DeepView for Entry {
    type V = EntryText;

    open spec fn deep_view(&self) -> EntryText {
        self@
    }
}

impl View for Found {
    type V = Place;

    open spec fn view(&self) -> Place {
        Place { id: self.id, rel: self.rel@, depth: self.depth as int }
    }
}

impl DeepView for Found {
    type V = Place;

    open spec fn deep_view(&self) -> Place {
        self@
    }
}

/// The place of something in a directory.
pub open spec fn child(dir: Place, e: EntryText) -> Place {
    Place {
        id: e.id,
        rel: under(dir.rel, e.name),
        depth: dir.depth + 1,
    }
}

/// Whether a directory is one of the runner's cgroups: a cgroup that lies at or
/// below a base, or one that is named as a transient leaf.
pub open spec fn is_ours(bases: Seq<Seq<char>>, dir: Place, e: EntryText) -> bool {
    &&& e.is_dir
    &&& e.is_cgroup
    &&& under_bases(child(dir, e).rel, bases) || is_transient(e.name)
}

/// Those of the first `n` entries that are the runner's cgroups.
pub open spec fn ours_to(
    bases: Seq<Seq<char>>,
    dir: Place,
    entries: Seq<EntryText>,
    n: int,
) -> Seq<Place>
    decreases n,
{
    if n <= 0 {
        Seq::empty()
    } else if is_ours(bases, dir, entries[n - 1]) {
        ours_to(bases, dir, entries, n - 1).push(child(dir, entries[n - 1]))
    } else {
        ours_to(bases, dir, entries, n - 1)
    }
}

/// Those of the first `n` entries that are directories to list in turn.
pub open spec fn dirs_to(dir: Place, entries: Seq<EntryText>, n: int) -> Seq<Place>
    decreases n,
{
    if n <= 0 {
        Seq::empty()
    } else if entries[n - 1].is_dir && dir.depth < MAX_WALK_DEPTH {
        dirs_to(dir, entries, n - 1).push(child(dir, entries[n - 1]))
    } else {
        dirs_to(dir, entries, n - 1)
    }
}

/// A walk over a tree of directories.
#[derive(Debug)]
pub struct Walk {
    bases: Vec<String>,
    todo: Vec<Found>,
    found: Vec<Found>,
}

impl Walk {
    /// The bases that hold the runner's cgroups.
    pub closed spec fn bases(&self) -> Seq<Seq<char>> {
        self.bases.deep_view()
    }

    /// The directories that are still to list.
    pub closed spec fn todo(&self) -> Seq<Place> {
        self.todo.deep_view()
    }

    /// The runner's cgroups found so far.
    pub closed spec fn found(&self) -> Seq<Place> {
        self.found.deep_view()
    }

    /// A walk that begins at the mount, whose number is 0.
    pub fn start(bases: &[&str]) -> (w: Walk)
        ensures
            w.bases() == bases.deep_view(),
            w.todo() == seq![Place { id: 0, rel: Seq::empty(), depth: 0 }],
            w.found() == Seq::<Place>::empty(),
    {
        let kept = owned(bases);
        let root = Found { id: 0, rel: String::new(), depth: 0 };
        let ghost top = root@;
        let mut todo: Vec<Found> = Vec::new();
        todo.push(root);
        let w = Walk { bases: kept, todo, found: Vec::new() };
        assert(w.todo() =~= seq![top]);
        assert(w.found() =~= Seq::empty());
        w
    }

    /// The directory to list next, or `None` where the walk is over.
    pub fn next(&mut self) -> (r: Option<Found>)
        ensures
            final(self).bases() == old(self).bases(),
            final(self).found() == old(self).found(),
            match r {
                Some(f) => old(self).todo().len() > 0 && f@ == old(self).todo().last()
                    && final(self).todo() == old(self).todo().drop_last(),
                None => old(self).todo().len() == 0 && final(self).todo() == old(self).todo(),
            },
    {
        let ghost before = self.todo.deep_view();
        let r = self.todo.pop();
        proof {
            if before.len() > 0 {
                assert(self.todo.deep_view() =~= before.drop_last());
            } else {
                assert(self.todo.deep_view() =~= before);
            }
        }
        r
    }

    /// Takes in what listing the directory `dir` gave. What lies too deep to be
    /// listed at all gives nothing.
    pub fn visit(&mut self, dir: &Found, entries: &[Entry])
        ensures
            final(self).bases() == old(self).bases(),
            dir.depth <= MAX_WALK_DEPTH ==> final(self).found() == old(self).found() + ours_to(
                old(self).bases(),
                dir@,
                entries.deep_view(),
                entries@.len() as int,
            ),
            dir.depth <= MAX_WALK_DEPTH ==> final(self).todo() == old(self).todo() + dirs_to(
                dir@,
                entries.deep_view(),
                entries@.len() as int,
            ),
            dir.depth > MAX_WALK_DEPTH ==> *final(self) == *old(self),
    {
        if dir.depth > MAX_WALK_DEPTH {
            return;
        }
        let refs = borrowed(&self.bases);
        let ghost bases = self.bases.deep_view();
        let ghost es = entries.deep_view();
        let ghost found0 = self.found.deep_view();
        let ghost todo0 = self.todo.deep_view();
        let mut i: usize = 0;
        assert(self.found.deep_view() =~= found0 + ours_to(bases, dir@, es, 0));
        assert(self.todo.deep_view() =~= todo0 + dirs_to(dir@, es, 0));
        while i < entries.len()
            invariant
                i <= entries.len(),
                dir.depth <= MAX_WALK_DEPTH,
                es == entries.deep_view(),
                bases == old(self).bases.deep_view(),
                self.bases == old(self).bases,
                refs.deep_view() == bases,
                self.found.deep_view() == found0 + ours_to(bases, dir@, es, i as int),
                self.todo.deep_view() == todo0 + dirs_to(dir@, es, i as int),
            decreases entries.len() - i,
        {
            let e = &entries[i];
            assert(es[i as int] == entries@[i as int]@);
            let ghost found1 = self.found.deep_view();
            let ghost todo1 = self.todo.deep_view();
            if e.is_dir {
                let rel = if dir.rel.as_str().is_empty() {
                    e.name.clone()
                } else {
                    dir.rel.clone().concat("/").concat(e.name.as_str())
                };
                let depth = dir.depth + 1;
                let ghost here = child(dir@, e@);
                assert(rel@ == here.rel);
                if e.is_cgroup && (under_any_base(rel.as_str(), refs.as_slice())
                    || is_transient_leaf_name(e.name.as_str())) {
                    self.found.push(Found { id: e.id, rel: rel.clone(), depth });
                    assert(self.found.deep_view() =~= found1.push(here));
                }
                if dir.depth < MAX_WALK_DEPTH {
                    self.todo.push(Found { id: e.id, rel, depth });
                    assert(self.todo.deep_view() =~= todo1.push(here));
                }
            }
            assert(self.found.deep_view() =~= found0 + ours_to(bases, dir@, es, i + 1));
            assert(self.todo.deep_view() =~= todo0 + dirs_to(dir@, es, i + 1));
            i = i + 1;
        }
    }
}

/// Whether `a` comes before `b`: deeper directories first, then by path.
pub open spec fn ahead(a: Place, b: Place) -> bool {
    a.depth > b.depth || (a.depth == b.depth && precedes(a.rel, b.rel))
}

/// No directory comes before a deeper one.
pub open spec fn deepest_first(s: Seq<Place>) -> bool {
    forall|i: int, j: int| 0 <= i < j < s.len() ==> !ahead(#[trigger] s[j], #[trigger] s[i])
}

impl Sortable for Found {
    open spec fn before(a: Place, b: Place) -> bool {
        ahead(a, b)
    }

    proof fn lemma_irreflexive(a: Place) {
        lemma_precedes_irreflexive(a.rel);
    }

    proof fn lemma_transitive(a: Place, b: Place, c: Place) {
        if a.depth == b.depth && b.depth == c.depth {
            lemma_precedes_transitive(a.rel, b.rel, c.rel);
        }
    }

    fn is_before(&self, other: &Self) -> (r: bool) {
        self.depth > other.depth || (self.depth == other.depth && sorts_before(
            self.rel.as_str(),
            other.rel.as_str(),
        ))
    }
}

/// Whether no path is there twice.
pub open spec fn paths_differ(s: Seq<Place>) -> bool {
    forall|i: int, j: int| 0 <= i < j < s.len() ==> (#[trigger] s[i]).rel != (#[trigger] s[j]).rel
}

/// Each directory comes before all that follow it: it is deeper, or as deep and
/// first by its path.
pub open spec fn strictly_deepest_first(s: Seq<Place>) -> bool {
    forall|i: int, j: int| 0 <= i < j < s.len() ==> ahead(#[trigger] s[i], #[trigger] s[j])
}

/// Where no path is there twice, none is in another order either.
pub proof fn lemma_paths_differ(s: Seq<Place>, t: Seq<Place>)
    requires
        paths_differ(s),
        s.to_multiset() == t.to_multiset(),
    ensures
        paths_differ(t),
{
    s.to_multiset_ensures();
    t.to_multiset_ensures();
    assert(s.no_duplicates());
    s.lemma_multiset_has_no_duplicates();
    assert forall|x: Place| t.to_multiset().contains(x) implies t.to_multiset().count(x) == 1 by {}
    t.lemma_multiset_has_no_duplicates_conv();
    assert forall|i: int, j: int| 0 <= i < j < t.len() implies (#[trigger] t[i]).rel != (
    #[trigger] t[j]).rel by {
        assert(t.contains(t[i]) && t.contains(t[j]));
        assert(s.to_multiset().count(t[i]) > 0 && s.to_multiset().count(t[j]) > 0);
        let k = choose|k: int| 0 <= k < s.len() && s[k] == t[i];
        let m = choose|m: int| 0 <= m < s.len() && s[m] == t[j];
        assert(t[i] != t[j]);
        if k < m {
            assert(s[k].rel != s[m].rel);
        } else {
            assert(s[m].rel != s[k].rel);
        }
    }
}

/// In the order of removal, different paths are strictly ordered.
pub proof fn lemma_strictly(s: Seq<Place>)
    requires
        deepest_first(s),
        paths_differ(s),
    ensures
        strictly_deepest_first(s),
{
    assert forall|i: int, j: int| 0 <= i < j < s.len() implies ahead(
        #[trigger] s[i],
        #[trigger] s[j],
    ) by {
        assert(!ahead(s[j], s[i]));
        lemma_precedes_total(s[i].rel, s[j].rel);
    }
}

/// The runner's cgroups that a walk has found, deepest first, so that no cgroup
/// is removed before those below it.
pub fn find_cgrun_cgroups(walk: Walk) -> (r: Vec<Found>)
    ensures
        deepest_first(r.deep_view()),
        r.deep_view().to_multiset() == walk.found().to_multiset(),
        paths_differ(walk.found()) ==> paths_differ(r.deep_view()) && strictly_deepest_first(
            r.deep_view(),
        ),
{
    let ghost found = walk.found();
    let r = sorted(walk.found);
    proof {
        assert(deepest_first(r.deep_view()));
        if paths_differ(found) {
            lemma_paths_differ(found, r.deep_view());
            lemma_strictly(r.deep_view());
        }
    }
    r
}

/// The number of slashes in a text.
pub open spec fn slashes(s: Seq<char>) -> nat
    decreases s.len(),
{
    if s.len() == 0 {
        0
    } else {
        slashes(s.drop_last()) + if s.last() == '/' {
            1nat
        } else {
            0
        }
    }
}

/// Whether the depth of a place below the mount is the number of names in it.
pub open spec fn depth_fits(p: Place) -> bool {
    p.rel.len() > 0 && p.depth == slashes(p.rel) + 1
}

proof fn lemma_slashes_add(a: Seq<char>, b: Seq<char>)
    ensures
        slashes(a + b) == slashes(a) + slashes(b),
    decreases b.len(),
{
    if b.len() == 0 {
        assert(a + b =~= a);
    } else {
        lemma_slashes_add(a, b.drop_last());
        assert((a + b).drop_last() =~= a + b.drop_last());
    }
}

proof fn lemma_no_slashes(s: Seq<char>)
    requires
        !s.contains('/'),
    ensures
        slashes(s) == 0,
    decreases s.len(),
{
    if s.len() > 0 {
        assert(s.contains(s.last()));
        assert forall|c: char| s.drop_last().contains(c) implies s.contains(c) by {
            let i = choose|i: int| 0 <= i < s.drop_last().len() && s.drop_last()[i] == c;
            assert(s[i] == c);
        }
        lemma_no_slashes(s.drop_last());
    }
}

/// The depth of what a directory holds fits where that of the directory does,
/// as long as names are names: not empty, and without a slash.
pub proof fn law_depth_fits(dir: Place, e: EntryText)
    requires
        depth_fits(dir) || (dir.rel.len() == 0 && dir.depth == 0),
        e.name.len() > 0,
        !e.name.contains('/'),
    ensures
        depth_fits(child(dir, e)),
{
    reveal_strlit("/");
    lemma_no_slashes(e.name);
    if dir.rel.len() > 0 {
        lemma_slashes_add(dir.rel, "/"@);
        lemma_slashes_add(dir.rel + "/"@, e.name);
        assert("/"@.drop_last() =~= Seq::empty());
        assert(slashes("/"@) == slashes("/"@.drop_last()) + 1);
    }
}

/// In the order of removal a cgroup comes after everything below it.
pub proof fn law_children_before_parents(s: Seq<Place>, i: int, j: int)
    requires
        deepest_first(s),
        0 <= i < s.len(),
        0 <= j < s.len(),
        depth_fits(s[i]),
        depth_fits(s[j]),
        begins(s[j].rel, s[i].rel + "/"@),
    ensures
        j < i,
{
    reveal_strlit("/");
    let outer = s[i].rel;
    let inner = s[j].rel;
    let n = outer.len() as int + 1;
    assert(inner =~= outer + "/"@ + inner.skip(n));
    lemma_slashes_add(outer, "/"@);
    lemma_slashes_add(outer + "/"@, inner.skip(n));
    assert("/"@.drop_last() =~= Seq::empty());
    assert(slashes("/"@) == slashes("/"@.drop_last()) + 1);
    assert(s[j].depth > s[i].depth);
    if i < j {
        assert(!ahead(s[j], s[i]));
    }
}

/// Whatever a walk reports is a cgroup at or below a base, or a transient leaf
/// by its name.
pub proof fn law_walk_reports_own(
    bases: Seq<Seq<char>>,
    dir: Place,
    entries: Seq<EntryText>,
    n: int,
    k: int,
)
    requires
        0 <= n <= entries.len(),
        0 <= k < ours_to(bases, dir, entries, n).len(),
    ensures
        exists|i: int|
            0 <= i < n && is_ours(bases, dir, #[trigger] entries[i]) && ours_to(
                bases,
                dir,
                entries,
                n,
            )[k] == child(dir, entries[i]),
    decreases n,
{
    if is_ours(bases, dir, entries[n - 1]) && k == ours_to(bases, dir, entries, n).len() - 1 {
        assert(is_ours(bases, dir, entries[n - 1]));
    } else {
        law_walk_reports_own(bases, dir, entries, n - 1, k);
        let i = choose|i: int|
            0 <= i < n - 1 && is_ours(bases, dir, #[trigger] entries[i]) && ours_to(
                bases,
                dir,
                entries,
                n - 1,
            )[k] == child(dir, entries[i]);
        assert(is_ours(bases, dir, entries[i]));
    }
}

/// All of the runner's cgroups below the directory `dir` of a tree, down to the
/// depth at which directories are no longer listed. `tree` gives the entries of
/// each directory.
pub open spec fn ours_below(
    bases: Seq<Seq<char>>,
    tree: spec_fn(Place) -> Seq<EntryText>,
    dir: Place,
) -> Multiset<Place>
    decreases MAX_WALK_DEPTH + 1 - dir.depth, tree(dir).len() + 1,
{
    if dir.depth > MAX_WALK_DEPTH {
        Multiset::empty()
    } else {
        ours_to(bases, dir, tree(dir), tree(dir).len() as int).to_multiset().add(
            ours_below_children(bases, tree, dir, tree(dir).len()),
        )
    }
}

/// All of the runner's cgroups below those of the first `n` entries of `dir`
/// that are listed in turn.
pub open spec fn ours_below_children(
    bases: Seq<Seq<char>>,
    tree: spec_fn(Place) -> Seq<EntryText>,
    dir: Place,
    n: nat,
) -> Multiset<Place>
    decreases MAX_WALK_DEPTH + 1 - dir.depth, n,
{
    if n == 0 {
        Multiset::empty()
    } else if tree(dir)[n - 1].is_dir && dir.depth < MAX_WALK_DEPTH {
        ours_below_children(bases, tree, dir, (n - 1) as nat).add(
            ours_below(bases, tree, child(dir, tree(dir)[n - 1])),
        )
    } else {
        ours_below_children(bases, tree, dir, (n - 1) as nat)
    }
}

/// All of the runner's cgroups below any of `dirs`.
pub open spec fn ours_below_all(
    bases: Seq<Seq<char>>,
    tree: spec_fn(Place) -> Seq<EntryText>,
    dirs: Seq<Place>,
) -> Multiset<Place>
    decreases dirs.len(),
{
    if dirs.len() == 0 {
        Multiset::empty()
    } else {
        ours_below_all(bases, tree, dirs.drop_last()).add(ours_below(bases, tree, dirs.last()))
    }
}

proof fn lemma_below_all_add(
    bases: Seq<Seq<char>>,
    tree: spec_fn(Place) -> Seq<EntryText>,
    a: Seq<Place>,
    b: Seq<Place>,
)
    ensures
        ours_below_all(bases, tree, a + b) == ours_below_all(bases, tree, a).add(
            ours_below_all(bases, tree, b),
        ),
    decreases b.len(),
{
    if b.len() == 0 {
        assert(a + b =~= a);
        assert(ours_below_all(bases, tree, a).add(Multiset::empty()) =~= ours_below_all(
            bases,
            tree,
            a,
        ));
    } else {
        lemma_below_all_add(bases, tree, a, b.drop_last());
        assert((a + b).drop_last() =~= a + b.drop_last());
        assert((a + b).last() == b.last());
        assert(ours_below_all(bases, tree, a + b) =~= ours_below_all(bases, tree, a).add(
            ours_below_all(bases, tree, b),
        ));
    }
}

proof fn lemma_below_dirs(
    bases: Seq<Seq<char>>,
    tree: spec_fn(Place) -> Seq<EntryText>,
    dir: Place,
    n: nat,
)
    ensures
        ours_below_all(bases, tree, dirs_to(dir, tree(dir), n as int)) == ours_below_children(
            bases,
            tree,
            dir,
            n,
        ),
    decreases n,
{
    if n > 0 {
        lemma_below_dirs(bases, tree, dir, (n - 1) as nat);
        if tree(dir)[n - 1].is_dir && dir.depth < MAX_WALK_DEPTH {
            let before = dirs_to(dir, tree(dir), n - 1);
            let c = child(dir, tree(dir)[n - 1]);
            assert(before.push(c).drop_last() =~= before);
        }
    }
}

/// A walk misses nothing: listing the next directory keeps the sum of what has
/// been found and of what lies below the directories still to list.
pub proof fn law_walk_misses_nothing(
    bases: Seq<Seq<char>>,
    tree: spec_fn(Place) -> Seq<EntryText>,
    todo: Seq<Place>,
    found: Seq<Place>,
)
    requires
        todo.len() > 0,
        todo.last().depth <= MAX_WALK_DEPTH,
    ensures
        ({
            let dir = todo.last();
            let n = tree(dir).len() as int;
            ours_below_all(bases, tree, todo.drop_last() + dirs_to(dir, tree(dir), n)).add(
                (found + ours_to(bases, dir, tree(dir), n)).to_multiset(),
            ) == ours_below_all(bases, tree, todo).add(found.to_multiset())
        }),
        forall|k: int|
            0 <= k < dirs_to(todo.last(), tree(todo.last()), tree(todo.last()).len() as int).len()
                ==> (#[trigger] dirs_to(
                todo.last(),
                tree(todo.last()),
                tree(todo.last()).len() as int,
            )[k]).depth <= MAX_WALK_DEPTH,
{
    let dir = todo.last();
    let n = tree(dir).len();
    let more = dirs_to(dir, tree(dir), n as int);
    let ours = ours_to(bases, dir, tree(dir), n as int);
    lemma_below_all_add(bases, tree, todo.drop_last(), more);
    lemma_below_dirs(bases, tree, dir, n);
    lemma_multiset_commutative(found, ours);
    lemma_dirs_depth(dir, tree(dir), n as int);
    assert(ours_below_all(bases, tree, todo.drop_last() + more).add((found + ours).to_multiset())
        =~= ours_below_all(bases, tree, todo).add(found.to_multiset()));
}

proof fn lemma_dirs_depth(dir: Place, entries: Seq<EntryText>, n: int)
    requires
        0 <= n <= entries.len(),
    ensures
        forall|k: int|
            0 <= k < dirs_to(dir, entries, n).len() ==> (#[trigger] dirs_to(dir, entries, n)[k]).depth
                <= MAX_WALK_DEPTH,
    decreases n,
{
    if n > 0 {
        lemma_dirs_depth(dir, entries, n - 1);
        let before = dirs_to(dir, entries, n - 1);
        assert forall|k: int| 0 <= k < dirs_to(dir, entries, n).len() implies (#[trigger] dirs_to(
            dir,
            entries,
            n,
        )[k]).depth <= MAX_WALK_DEPTH by {
            if k < before.len() {
                assert(dirs_to(dir, entries, n)[k] == before[k]);
            }
        }
    }
}

/// What a directory holds lies one deeper than the directory, at its path with a
/// slash and the name after it; what the mount holds lies at its name.
pub proof fn law_places_in_directories(dir: Place, e: EntryText)
    ensures
        child(dir, e).id == e.id,
        child(dir, e).depth == dir.depth + 1,
        dir.rel.len() == 0 ==> child(dir, e).rel == e.name,
        dir.rel.len() > 0 ==> child(dir, e).rel == dir.rel + "/"@ + e.name,
{
}

proof fn lemma_ours_to(bases: Seq<Seq<char>>, dir: Place, entries: Seq<EntryText>, n: int)
    requires
        0 <= n <= entries.len(),
    ensures
        ours_to(bases, dir, entries, n) == entries.take(n).filter(
            |e: EntryText|
                e.is_dir && e.is_cgroup && (under_bases(child(dir, e).rel, bases) || is_transient(
                    e.name,
                )),
        ).map_values(|e: EntryText| child(dir, e)),
    decreases n,
{
    reveal(Seq::filter);
    let p = |e: EntryText|
        e.is_dir && e.is_cgroup && (under_bases(child(dir, e).rel, bases) || is_transient(e.name));
    let f = |e: EntryText| child(dir, e);
    let some = entries.take(n);
    if n > 0 {
        let before = entries.take(n - 1);
        let e = entries[n - 1];
        lemma_ours_to(bases, dir, entries, n - 1);
        assert(some.drop_last() =~= before);
        assert(some.last() == e);
        if p(e) {
            assert(some.filter(p) == before.filter(p).push(e));
            assert(some.filter(p).map_values(f) =~= before.filter(p).map_values(f).push(
                child(dir, e),
            ));
        }
    } else {
        assert(some.filter(p).map_values(f) =~= Seq::empty());
    }
}

/// Of what a directory holds, all that are found are its directories that are
/// cgroups and lie at or below a base or are named as transient leaves, however
/// many they are, in their order.
pub proof fn law_all_own_entries(bases: Seq<Seq<char>>, dir: Place, entries: Seq<EntryText>)
    ensures
        ours_to(bases, dir, entries, entries.len() as int) == entries.filter(
            |e: EntryText|
                e.is_dir && e.is_cgroup && (under_bases(child(dir, e).rel, bases) || is_transient(
                    e.name,
                )),
        ).map_values(|e: EntryText| child(dir, e)),
{
    assert(entries.take(entries.len() as int) =~= entries);
    lemma_ours_to(bases, dir, entries, entries.len() as int);
}

proof fn lemma_dirs_to(dir: Place, entries: Seq<EntryText>, n: int)
    requires
        0 <= n <= entries.len(),
    ensures
        dir.depth < 128 ==> dirs_to(dir, entries, n) == entries.take(n).filter(
            |e: EntryText| e.is_dir,
        ).map_values(|e: EntryText| child(dir, e)),
        dir.depth >= 128 ==> dirs_to(dir, entries, n).len() == 0,
    decreases n,
{
    reveal(Seq::filter);
    let p = |e: EntryText| e.is_dir;
    let f = |e: EntryText| child(dir, e);
    let some = entries.take(n);
    if n > 0 {
        let before = entries.take(n - 1);
        let e = entries[n - 1];
        lemma_dirs_to(dir, entries, n - 1);
        assert(some.drop_last() =~= before);
        assert(some.last() == e);
        if p(e) {
            assert(some.filter(p) == before.filter(p).push(e));
            assert(some.filter(p).map_values(f) =~= before.filter(p).map_values(f).push(
                child(dir, e),
            ));
        }
    } else {
        assert(some.filter(p).map_values(f) =~= Seq::empty());
    }
}

/// All directories that a directory holds are listed in turn, whether or not
/// they are cgroups, down to the 128th level below the mount and no further.
pub proof fn law_all_directories_are_listed(dir: Place, entries: Seq<EntryText>)
    ensures
        dir.depth < 128 ==> dirs_to(dir, entries, entries.len() as int) == entries.filter(
            |e: EntryText| e.is_dir,
        ).map_values(|e: EntryText| child(dir, e)),
        dir.depth >= 128 ==> dirs_to(dir, entries, entries.len() as int).len() == 0,
{
    assert(entries.take(entries.len() as int) =~= entries);
    lemma_dirs_to(dir, entries, entries.len() as int);
}

/// What is deeper is removed first, and of what is as deep the first by its
/// path.
pub proof fn law_order_of_removal(a: Place, b: Place)
    ensures
        a.depth > b.depth ==> ahead(a, b) && !ahead(b, a),
        a.depth == b.depth ==> (ahead(a, b) <==> precedes(a.rel, b.rel)),
{
}

} // verus!
