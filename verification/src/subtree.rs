//! Which cgroups belong to the tree of a cgroup: itself and all below it.

use vstd::prelude::*;

use crate::nest::{
    apart, is_entry_name, is_inside, lemma_inside_longer, lemma_inside_transitive, lemma_under,
    lemma_under_apart, lemma_under_keeps_apart, under,
};
use crate::search::is_listing;
use crate::walk::{Entry, EntryText};

verus! {

/// A directory of a tree, by its number and its path below the topmost one.
#[derive(Debug)]
pub struct Branch {
    pub id: usize,
    pub rel: String,
}

/// What a `Branch` says.
pub ghost struct BranchText {
    pub id: usize,
    pub rel: Seq<char>,
}

impl View for Branch {
    type V = BranchText;

    open spec fn view(&self) -> BranchText {
        BranchText { id: self.id, rel: self.rel@ }
    }
}

impl DeepView for Branch {
    type V = BranchText;

    open spec fn deep_view(&self) -> BranchText {
        self@
    }
}

/// What is called `e` in a directory.
pub open spec fn branch(dir: BranchText, e: EntryText) -> BranchText {
    BranchText { id: e.id, rel: under(dir.rel, e.name) }
}

/// Those of the first `n` entries that are directories.
pub open spec fn branches_to(dir: BranchText, entries: Seq<EntryText>, n: int) -> Seq<BranchText>
    decreases n,
{
    if n <= 0 {
        Seq::empty()
    } else if entries[n - 1].is_dir {
        branches_to(dir, entries, n - 1).push(branch(dir, entries[n - 1]))
    } else {
        branches_to(dir, entries, n - 1)
    }
}

/// The directories of a tree, as far as they are known.
#[derive(Debug)]
pub struct Subtree {
    todo: Vec<Branch>,
    listed: Vec<Branch>,
}

impl Subtree {
    /// The directories that are still to list.
    pub closed spec fn todo(&self) -> Seq<BranchText> {
        self.todo.deep_view()
    }

    /// The directories that have been listed.
    pub closed spec fn listed(&self) -> Seq<BranchText> {
        self.listed.deep_view()
    }

    /// A tree of which only the topmost directory is known, whose number is 0.
    pub fn start() -> (r: Subtree)
        ensures
            r.todo() == seq![BranchText { id: 0, rel: Seq::empty() }],
            r.listed() == Seq::<BranchText>::empty(),
    {
        let root = Branch { id: 0, rel: String::new() };
        let ghost first = root@;
        let mut todo: Vec<Branch> = Vec::new();
        todo.push(root);
        let r = Subtree { todo, listed: Vec::new() };
        assert(r.todo() =~= seq![first]);
        assert(r.listed() =~= Seq::empty());
        r
    }

    /// The directory to list next, or `None` where all have been listed.
    pub fn next(&mut self) -> (r: Option<Branch>)
        ensures
            final(self).listed() == old(self).listed(),
            match r {
                Some(d) => old(self).todo().len() > 0 && d@ == old(self).todo().last()
                    && final(self).todo() == old(self).todo().drop_last(),
                None => old(self).todo().len() == 0 && final(self).todo() == old(self).todo(),
            },
    {
        let ghost before = self.todo.deep_view();
        let r = self.todo.pop();
        proof {
            if before.len() > 0 {
                assert(self.todo.deep_view() =~= before.drop_last());
            } else {
                assert(self.todo.deep_view() =~= before);
            }
        }
        r
    }

    /// Takes in what listing the directory `dir` gave.
    pub fn visit(&mut self, dir: Branch, entries: &[Entry])
        ensures
            final(self).listed() == old(self).listed().push(dir@),
            final(self).todo() == old(self).todo() + branches_to(
                dir@,
                entries.deep_view(),
                entries@.len() as int,
            ),
    {
        let ghost es = entries.deep_view();
        let ghost listed0 = self.listed.deep_view();
        let ghost todo0 = self.todo.deep_view();
        let ghost at = dir@;
        let mut i: usize = 0;
        assert(self.todo.deep_view() =~= todo0 + branches_to(at, es, 0));
        while i < entries.len()
            invariant
                i <= entries.len(),
                es == entries.deep_view(),
                at == dir@,
                self.listed.deep_view() == listed0,
                self.todo.deep_view() == todo0 + branches_to(at, es, i as int),
            decreases entries.len() - i,
        {
            let e = &entries[i];
            assert(es[i as int] == entries@[i as int]@);
            let ghost todo1 = self.todo.deep_view();
            if e.is_dir {
                let rel = if dir.rel.as_str().is_empty() {
                    e.name.clone()
                } else {
                    dir.rel.clone().concat("/").concat(e.name.as_str())
                };
                let ghost here = branch(at, e@);
                assert(rel@ == here.rel);
                self.todo.push(Branch { id: e.id, rel });
                assert(self.todo.deep_view() =~= todo1.push(here));
            }
            assert(self.todo.deep_view() =~= todo0 + branches_to(at, es, i + 1));
            i = i + 1;
        }
        self.listed.push(dir);
        assert(self.listed.deep_view() =~= listed0.push(at));
    }

    /// The directories that have been listed, in that order.
    pub fn dirs(self) -> (r: Vec<Branch>)
        ensures
            r.deep_view() == self.listed(),
    {
        self.listed
    }
}

/// How far listing a tree has come.
pub ghost struct Listing {
    /// The directories that are still to list.
    pub todo: Seq<BranchText>,
    /// The directories that have been listed.
    pub listed: Seq<BranchText>,
}

/// The topmost directory of a tree.
pub open spec fn trunk() -> BranchText {
    BranchText { id: 0, rel: Seq::empty() }
}

/// A tree after one more directory was listed, as `Subtree::next` and
/// `Subtree::visit` have it. `tree` gives the entries of each directory.
pub open spec fn grown(tree: spec_fn(BranchText) -> Seq<EntryText>, p: Listing) -> Listing {
    let dir = p.todo.last();
    if p.todo.len() == 0 {
        p
    } else {
        Listing {
            todo: p.todo.drop_last() + branches_to(dir, tree(dir), tree(dir).len() as int),
            listed: p.listed.push(dir),
        }
    }
}

/// A tree after `n` directories were listed, as `Subtree::start` begins it.
pub open spec fn listed_after(tree: spec_fn(BranchText) -> Seq<EntryText>, n: nat) -> Listing
    decreases n,
{
    if n == 0 {
        Listing { todo: seq![trunk()], listed: Seq::empty() }
    } else {
        grown(tree, listed_after(tree, (n - 1) as nat))
    }
}

/// Where a route leads from `dir`: through the entries with these places in
/// their listings.
pub open spec fn branch_at(
    tree: spec_fn(BranchText) -> Seq<EntryText>,
    dir: BranchText,
    route: Seq<int>,
) -> BranchText
    decreases route.len(),
{
    if route.len() == 0 {
        dir
    } else {
        branch_at(tree, branch(dir, tree(dir)[route[0]]), route.skip(1))
    }
}

/// Whether a route leads from `dir` through directories alone.
pub open spec fn leads_on(
    tree: spec_fn(BranchText) -> Seq<EntryText>,
    dir: BranchText,
    route: Seq<int>,
) -> bool
    decreases route.len(),
{
    route.len() == 0 || {
        &&& 0 <= route[0] < tree(dir).len()
        &&& tree(dir)[route[0]].is_dir
        &&& leads_on(tree, branch(dir, tree(dir)[route[0]]), route.skip(1))
    }
}

/// Whether `d` is the directory `dir` or one below it.
pub open spec fn is_at_or_below(
    tree: spec_fn(BranchText) -> Seq<EntryText>,
    dir: BranchText,
    d: BranchText,
) -> bool {
    exists|route: Seq<int>| #[trigger]
        leads_on(tree, dir, route) && branch_at(tree, dir, route) == d
}

/// Whether `d` is one of `dirs` or a directory below one of them.
pub open spec fn is_at_or_below_any(
    tree: spec_fn(BranchText) -> Seq<EntryText>,
    dirs: Seq<BranchText>,
    d: BranchText,
) -> bool {
    exists|i: int| 0 <= i < dirs.len() && is_at_or_below(tree, #[trigger] dirs[i], d)
}

proof fn lemma_branches_origin(dir: BranchText, entries: Seq<EntryText>, n: int, k: int)
    requires
        0 <= n <= entries.len(),
        0 <= k < branches_to(dir, entries, n).len(),
    ensures
        exists|i: int|
            0 <= i < n && (#[trigger] entries[i]).is_dir && branches_to(dir, entries, n)[k]
                == branch(dir, entries[i]),
    decreases n,
{
    if entries[n - 1].is_dir && k == branches_to(dir, entries, n).len() - 1 {
        assert(entries[n - 1].is_dir);
    } else {
        lemma_branches_origin(dir, entries, n - 1, k);
        let i = choose|i: int|
            0 <= i < n - 1 && (#[trigger] entries[i]).is_dir && branches_to(
                dir,
                entries,
                n - 1,
            )[k] == branch(dir, entries[i]);
        assert(entries[i].is_dir);
    }
}

proof fn lemma_branches_member(dir: BranchText, entries: Seq<EntryText>, n: int, i: int)
    requires
        0 <= i < n <= entries.len(),
        entries[i].is_dir,
    ensures
        branches_to(dir, entries, n).contains(branch(dir, entries[i])),
    decreases n,
{
    let s = branches_to(dir, entries, n);
    if i == n - 1 {
        assert(s[s.len() - 1] == branch(dir, entries[i]));
    } else {
        lemma_branches_member(dir, entries, n - 1, i);
        let before = branches_to(dir, entries, n - 1);
        let k = choose|k: int| 0 <= k < before.len() && before[k] == branch(dir, entries[i]);
        assert(s[k] == branch(dir, entries[i]));
    }
}

proof fn lemma_below_listed(
    tree: spec_fn(BranchText) -> Seq<EntryText>,
    dir: BranchText,
    d: BranchText,
)
    ensures
        is_at_or_below(tree, dir, d) <==> d == dir || is_at_or_below_any(
            tree,
            branches_to(dir, tree(dir), tree(dir).len() as int),
            d,
        ),
{
    let es = tree(dir);
    let n = es.len() as int;
    let dirs = branches_to(dir, es, n);
    if is_at_or_below(tree, dir, d) {
        let route = choose|route: Seq<int>| #[trigger]
            leads_on(tree, dir, route) && branch_at(tree, dir, route) == d;
        if route.len() > 0 {
            let c = branch(dir, es[route[0]]);
            assert(leads_on(tree, c, route.skip(1)));
            lemma_branches_member(dir, es, n, route[0]);
            let k = choose|k: int| 0 <= k < dirs.len() && dirs[k] == c;
            assert(is_at_or_below(tree, dirs[k], d));
        }
    }
    if d == dir {
        let none = Seq::<int>::empty();
        assert(leads_on(tree, dir, none) && branch_at(tree, dir, none) == d);
    }
    if is_at_or_below_any(tree, dirs, d) {
        let k = choose|k: int| 0 <= k < dirs.len() && is_at_or_below(tree, #[trigger] dirs[k], d);
        lemma_branches_origin(dir, es, n, k);
        let i = choose|i: int|
            0 <= i < n && (#[trigger] es[i]).is_dir && dirs[k] == branch(dir, es[i]);
        let rest = choose|route: Seq<int>| #[trigger]
            leads_on(tree, dirs[k], route) && branch_at(tree, dirs[k], route) == d;
        let route = seq![i] + rest;
        assert(route.skip(1) =~= rest);
        assert(leads_on(tree, dir, route));
    }
}

proof fn lemma_lists_all(
    tree: spec_fn(BranchText) -> Seq<EntryText>,
    n: nat,
    d: BranchText,
)
    ensures
        ({
            let p = listed_after(tree, n);
            is_at_or_below(tree, trunk(), d) <==> p.listed.contains(d) || is_at_or_below_any(
                tree,
                p.todo,
                d,
            )
        }),
    decreases n,
{
    let q = listed_after(tree, n);
    if n == 0 {
        assert(q.todo[0] == trunk());
    } else {
        lemma_lists_all(tree, (n - 1) as nat, d);
        let p = listed_after(tree, (n - 1) as nat);
        if p.todo.len() > 0 {
            let dir = p.todo.last();
            let m = p.todo.len() - 1;
            let dirs = branches_to(dir, tree(dir), tree(dir).len() as int);
            lemma_below_listed(tree, dir, d);
            if p.listed.contains(d) {
                let k = choose|k: int| 0 <= k < p.listed.len() && p.listed[k] == d;
                assert(q.listed[k] == d);
            }
            if d == dir {
                assert(q.listed[p.listed.len() as int] == d);
            }
            if q.listed.contains(d) && d != dir {
                let k = choose|k: int| 0 <= k < q.listed.len() && q.listed[k] == d;
                assert(p.listed[k] == d);
            }
            if is_at_or_below_any(tree, p.todo, d) {
                let k = choose|k: int|
                    0 <= k < p.todo.len() && is_at_or_below(tree, #[trigger] p.todo[k], d);
                if k < m {
                    assert(q.todo[k] == p.todo[k]);
                }
            }
            if is_at_or_below_any(tree, dirs, d) {
                let k = choose|k: int|
                    0 <= k < dirs.len() && is_at_or_below(tree, #[trigger] dirs[k], d);
                assert(q.todo[m + k] == dirs[k]);
            }
            if is_at_or_below_any(tree, q.todo, d) {
                let k = choose|k: int|
                    0 <= k < q.todo.len() && is_at_or_below(tree, #[trigger] q.todo[k], d);
                if k < m {
                    assert(p.todo[k] == q.todo[k]);
                } else {
                    assert(dirs[k - m] == q.todo[k]);
                }
            }
            if is_at_or_below(tree, dir, d) {
                assert(p.todo[m] == dir);
            }
        }
    }
}

/// Once no directory is left to list, those listed are the topmost one and all
/// below it, and no other.
pub proof fn law_subtree_is_whole(
    tree: spec_fn(BranchText) -> Seq<EntryText>,
    n: nat,
    d: BranchText,
)
    requires
        listed_after(tree, n).todo.len() == 0,
    ensures
        listed_after(tree, n).listed.contains(d) <==> is_at_or_below(tree, trunk(), d),
{
    lemma_lists_all(tree, n, d);
}

/// Whether the listings of a tree are such as directories can have.
pub open spec fn are_listings(tree: spec_fn(BranchText) -> Seq<EntryText>) -> bool {
    forall|dir: BranchText| is_listing(#[trigger] tree(dir))
}

/// Whether no directory is there twice, by its path.
pub open spec fn branches_differ(s: Seq<BranchText>) -> bool {
    forall|i: int, j: int| 0 <= i < j < s.len() ==> (#[trigger] s[i]).rel != (#[trigger] s[j]).rel
}

/// Whether the directories still to list are apart from each other, nothing
/// listed is one of them or lies below one, and none is listed twice.
pub open spec fn is_tidy_listing(p: Listing) -> bool {
    &&& forall|i: int, j: int|
        0 <= i < j < p.todo.len() ==> apart((#[trigger] p.todo[i]).rel, (#[trigger] p.todo[j]).rel)
    &&& forall|i: int, j: int|
        0 <= i < p.todo.len() && 0 <= j < p.listed.len() ==> (#[trigger] p.todo[i]).rel != (
        #[trigger] p.listed[j]).rel && !is_inside(p.todo[i].rel, p.listed[j].rel)
    &&& branches_differ(p.listed)
}

proof fn lemma_branches_apart(dir: BranchText, entries: Seq<EntryText>, n: int)
    requires
        is_listing(entries),
        0 <= n <= entries.len(),
    ensures
        ({
            let s = branches_to(dir, entries, n);
            forall|i: int, j: int|
                0 <= i < j < s.len() ==> apart((#[trigger] s[i]).rel, (#[trigger] s[j]).rel)
        }),
    decreases n,
{
    if n > 0 {
        lemma_branches_apart(dir, entries, n - 1);
        let before = branches_to(dir, entries, n - 1);
        let s = branches_to(dir, entries, n);
        assert forall|i: int, j: int| 0 <= i < j < s.len() implies apart(
            (#[trigger] s[i]).rel,
            (#[trigger] s[j]).rel,
        ) by {
            assert(s[i] == before[i]);
            if j < before.len() {
                assert(s[j] == before[j]);
            } else {
                lemma_branches_origin(dir, entries, n - 1, i);
                let k = choose|k: int|
                    0 <= k < n - 1 && (#[trigger] entries[k]).is_dir && before[i] == branch(
                        dir,
                        entries[k],
                    );
                assert(entries[k].name != entries[n - 1].name);
                lemma_under_apart(dir.rel, entries[k].name, entries[n - 1].name);
            }
        }
    }
}

proof fn lemma_branch_name(dir: BranchText, entries: Seq<EntryText>, k: int) -> (name: Seq<char>)
    requires
        is_listing(entries),
        0 <= k < branches_to(dir, entries, entries.len() as int).len(),
    ensures
        is_entry_name(name),
        branches_to(dir, entries, entries.len() as int)[k].rel == under(dir.rel, name),
{
    let n = entries.len() as int;
    lemma_branches_origin(dir, entries, n, k);
    let i = choose|i: int|
        0 <= i < n && (#[trigger] entries[i]).is_dir && branches_to(dir, entries, n)[k] == branch(
            dir,
            entries[i],
        );
    entries[i].name
}

proof fn lemma_grown_tidy(tree: spec_fn(BranchText) -> Seq<EntryText>, p: Listing)
    requires
        are_listings(tree),
        is_tidy_listing(p),
    ensures
        is_tidy_listing(grown(tree, p)),
{
    if p.todo.len() > 0 {
        let dir = p.todo.last();
        let q = grown(tree, p);
        let es = tree(dir);
        let dirs = branches_to(dir, es, es.len() as int);
        let m = p.todo.len() - 1;
        let f = p.listed.len() as int;
        assert(is_listing(tree(dir)));
        assert(dir == p.todo[m]);
        lemma_branches_apart(dir, es, es.len() as int);
        assert forall|i: int, j: int| 0 <= i < j < q.todo.len() implies apart(
            (#[trigger] q.todo[i]).rel,
            (#[trigger] q.todo[j]).rel,
        ) by {
            if j < m {
                assert(q.todo[i] == p.todo[i] && q.todo[j] == p.todo[j]);
            } else {
                assert(q.todo[j] == dirs[j - m]);
                if i < m {
                    assert(q.todo[i] == p.todo[i]);
                    assert(apart(p.todo[i].rel, p.todo[m].rel));
                    let name = lemma_branch_name(dir, es, j - m);
                    lemma_under_keeps_apart(dir.rel, name, p.todo[i].rel);
                } else {
                    assert(q.todo[i] == dirs[i - m]);
                }
            }
        }
        assert forall|i: int, j: int|
            0 <= i < q.todo.len() && 0 <= j < q.listed.len() implies (#[trigger] q.todo[i]).rel != (
        #[trigger] q.listed[j]).rel && !is_inside(q.todo[i].rel, q.listed[j].rel) by {
            let t = q.todo[i].rel;
            let g = q.listed[j].rel;
            if j < f {
                assert(q.listed[j] == p.listed[j]);
            }
            if i < m {
                assert(q.todo[i] == p.todo[i]);
                assert(apart(p.todo[i].rel, p.todo[m].rel));
            } else {
                assert(q.todo[i] == dirs[i - m]);
                let name = lemma_branch_name(dir, es, i - m);
                lemma_under(dir.rel, name, g);
                lemma_inside_longer(dir.rel, t);
                if j < f {
                    assert(!is_inside(p.todo[m].rel, p.listed[j].rel));
                    if is_inside(t, g) {
                        lemma_inside_transitive(dir.rel, t, g);
                    }
                } else if is_inside(t, g) {
                    lemma_inside_longer(t, g);
                }
            }
        }
        assert forall|i: int, j: int| 0 <= i < j < q.listed.len() implies (
        #[trigger] q.listed[i]).rel != (#[trigger] q.listed[j]).rel by {
            assert(q.listed[i] == p.listed[i]);
            if j < f {
                assert(q.listed[j] == p.listed[j]);
            } else {
                assert(p.todo[m].rel != p.listed[i].rel);
            }
        }
    }
}

/// No directory of a tree is listed twice.
pub proof fn law_subtree_is_listed_once(tree: spec_fn(BranchText) -> Seq<EntryText>, n: nat)
    requires
        are_listings(tree),
    ensures
        branches_differ(listed_after(tree, n).listed),
        is_tidy_listing(listed_after(tree, n)),
    decreases n,
{
    if n > 0 {
        law_subtree_is_listed_once(tree, (n - 1) as nat);
        lemma_grown_tidy(tree, listed_after(tree, (n - 1) as nat));
    }
}

proof fn lemma_branches_to(dir: BranchText, entries: Seq<EntryText>, n: int)
    requires
        0 <= n <= entries.len(),
    ensures
        branches_to(dir, entries, n) == entries.take(n).filter(
            |e: EntryText| e.is_dir,
        ).map_values(|e: EntryText| branch(dir, e)),
    decreases n,
{
    reveal(Seq::filter);
    let p = |e: EntryText| e.is_dir;
    let f = |e: EntryText| branch(dir, e);
    let some = entries.take(n);
    if n > 0 {
        let before = entries.take(n - 1);
        let e = entries[n - 1];
        lemma_branches_to(dir, entries, n - 1);
        assert(some.drop_last() =~= before);
        assert(some.last() == e);
        if p(e) {
            assert(some.filter(p) == before.filter(p).push(e));
            assert(some.filter(p).map_values(f) =~= before.filter(p).map_values(f).push(
                branch(dir, e),
            ));
        }
    } else {
        assert(some.filter(p).map_values(f) =~= Seq::empty());
    }
}

/// All directories that a directory of a tree holds are listed in turn, each at
/// the path of that directory with its own name after it.
pub proof fn law_all_branches(dir: BranchText, entries: Seq<EntryText>, e: EntryText)
    ensures
        branches_to(dir, entries, entries.len() as int) == entries.filter(
            |e: EntryText| e.is_dir,
        ).map_values(|e: EntryText| branch(dir, e)),
        branch(dir, e).id == e.id,
        dir.rel.len() == 0 ==> branch(dir, e).rel == e.name,
        dir.rel.len() > 0 ==> branch(dir, e).rel == dir.rel + "/"@ + e.name,
{
    assert(entries.take(entries.len() as int) =~= entries);
    lemma_branches_to(dir, entries, entries.len() as int);
}

} // verus!
