//! What holds of a whole walk: that it ends, that it finds each of the runner's
//! cgroups once and nothing else, and in which order they come out.

use vstd::prelude::*;

use crate::cgroup::full_path;
use crate::kill::{cgrun_target, ROOT_BASE};
use crate::nest::{
    apart, is_entry_name, is_inside, lemma_inside_longer, lemma_inside_transitive, lemma_under,
    lemma_under_apart, lemma_under_keeps_apart, under,
};
use crate::path::is_name;
use crate::place::{lemma_below_full, lemma_name_alone, lemma_name_placed};
use crate::privilege::names_below;
use crate::text::begins;
use crate::walk::{
    child, deepest_first, depth_fits, dirs_to, is_ours, law_children_before_parents, law_depth_fits,
    law_walk_misses_nothing, law_walk_reports_own, lemma_paths_differ, lemma_strictly, ours_below,
    ours_below_all, ours_to, paths_differ, strictly_deepest_first, EntryText, MAX_WALK_DEPTH, Place,
};

verus! {

/// How far a walk has come.
pub ghost struct Progress {
    /// The directories that are still to list.
    pub todo: Seq<Place>,
    /// What has been found.
    pub found: Seq<Place>,
}

/// The place at which a walk begins.
pub open spec fn top() -> Place {
    Place { id: 0, rel: Seq::empty(), depth: 0 }
}

/// A walk after one more directory was listed, as `Walk::next` and `Walk::visit`
/// have it. `tree` gives the entries of each directory.
pub open spec fn stepped(
    bases: Seq<Seq<char>>,
    tree: spec_fn(Place) -> Seq<EntryText>,
    p: Progress,
) -> Progress {
    let dir = p.todo.last();
    if p.todo.len() == 0 {
        p
    } else if dir.depth > MAX_WALK_DEPTH {
        Progress { todo: p.todo.drop_last(), found: p.found }
    } else {
        let n = tree(dir).len() as int;
        Progress {
            todo: p.todo.drop_last() + dirs_to(dir, tree(dir), n),
            found: p.found + ours_to(bases, dir, tree(dir), n),
        }
    }
}

/// A walk after `n` directories were listed, as `Walk::start` begins it.
pub open spec fn walked(
    bases: Seq<Seq<char>>,
    tree: spec_fn(Place) -> Seq<EntryText>,
    n: nat,
) -> Progress
    decreases n,
{
    if n == 0 {
        Progress { todo: seq![top()], found: Seq::empty() }
    } else {
        stepped(bases, tree, walked(bases, tree, (n - 1) as nat))
    }
}

proof fn lemma_walk_sum(
    bases: Seq<Seq<char>>,
    tree: spec_fn(Place) -> Seq<EntryText>,
    n: nat,
)
    ensures
        ({
            let p = walked(bases, tree, n);
            &&& ours_below_all(bases, tree, p.todo).add(p.found.to_multiset()) == ours_below(
                bases,
                tree,
                top(),
            )
            &&& forall|i: int| 0 <= i < p.todo.len() ==> (#[trigger] p.todo[i]).depth
                <= MAX_WALK_DEPTH
        }),
    decreases n,
{
    if n == 0 {
        let p = walked(bases, tree, 0);
        p.found.to_multiset_ensures();
        assert(p.todo.drop_last() =~= Seq::empty());
        assert(ours_below_all(bases, tree, p.todo.drop_last()) =~= vstd::multiset::Multiset::empty());
        assert(ours_below_all(bases, tree, p.todo).add(p.found.to_multiset()) =~= ours_below(
            bases,
            tree,
            top(),
        ));
    } else {
        lemma_walk_sum(bases, tree, (n - 1) as nat);
        let p = walked(bases, tree, (n - 1) as nat);
        if p.todo.len() > 0 {
            law_walk_misses_nothing(bases, tree, p.todo, p.found);
            let dir = p.todo.last();
            let more = dirs_to(dir, tree(dir), tree(dir).len() as int);
            let q = walked(bases, tree, n);
            assert forall|i: int| 0 <= i < q.todo.len() implies (#[trigger] q.todo[i]).depth
                <= MAX_WALK_DEPTH by {
                if i < p.todo.len() - 1 {
                    assert(q.todo[i] == p.todo[i]);
                } else {
                    assert(q.todo[i] == more[i - (p.todo.len() - 1)]);
                }
            }
        }
    }
}

/// A whole walk misses nothing and adds nothing: once no directory is left to
/// list, what has been found are the runner's cgroups below the top, as often as
/// they are there.
pub proof fn law_whole_walk(
    bases: Seq<Seq<char>>,
    tree: spec_fn(Place) -> Seq<EntryText>,
    n: nat,
)
    requires
        walked(bases, tree, n).todo.len() == 0,
    ensures
        walked(bases, tree, n).found.to_multiset() == ours_below(bases, tree, top()),
{
    lemma_walk_sum(bases, tree, n);
    let p = walked(bases, tree, n);
    assert(ours_below_all(bases, tree, p.todo).add(p.found.to_multiset()) =~= p.found.to_multiset());
}

/// How many directories are listed from `dir` on.
pub open spec fn listed_below(tree: spec_fn(Place) -> Seq<EntryText>, dir: Place) -> nat
    decreases MAX_WALK_DEPTH + 1 - dir.depth, tree(dir).len() + 1,
{
    if dir.depth > MAX_WALK_DEPTH {
        1
    } else {
        1 + listed_below_children(tree, dir, tree(dir).len())
    }
}

/// How many directories are listed from the first `n` entries of `dir` on.
pub open spec fn listed_below_children(
    tree: spec_fn(Place) -> Seq<EntryText>,
    dir: Place,
    n: nat,
) -> nat
    decreases MAX_WALK_DEPTH + 1 - dir.depth, n,
{
    if n == 0 {
        0
    } else if tree(dir)[n - 1].is_dir && dir.depth < MAX_WALK_DEPTH {
        listed_below_children(tree, dir, (n - 1) as nat) + listed_below(
            tree,
            child(dir, tree(dir)[n - 1]),
        )
    } else {
        listed_below_children(tree, dir, (n - 1) as nat)
    }
}

/// How many directories are listed from any of `dirs` on.
pub open spec fn listed_below_all(
    tree: spec_fn(Place) -> Seq<EntryText>,
    dirs: Seq<Place>,
) -> nat
    decreases dirs.len(),
{
    if dirs.len() == 0 {
        0
    } else {
        listed_below_all(tree, dirs.drop_last()) + listed_below(tree, dirs.last())
    }
}

proof fn lemma_listed_add(
    tree: spec_fn(Place) -> Seq<EntryText>,
    a: Seq<Place>,
    b: Seq<Place>,
)
    ensures
        listed_below_all(tree, a + b) == listed_below_all(tree, a) + listed_below_all(tree, b),
    decreases b.len(),
{
    if b.len() == 0 {
        assert(a + b =~= a);
    } else {
        lemma_listed_add(tree, a, b.drop_last());
        assert((a + b).drop_last() =~= a + b.drop_last());
        assert((a + b).last() == b.last());
    }
}

proof fn lemma_listed_dirs(tree: spec_fn(Place) -> Seq<EntryText>, dir: Place, n: nat)
    ensures
        listed_below_all(tree, dirs_to(dir, tree(dir), n as int)) == listed_below_children(
            tree,
            dir,
            n,
        ),
    decreases n,
{
    if n > 0 {
        lemma_listed_dirs(tree, dir, (n - 1) as nat);
        if tree(dir)[n - 1].is_dir && dir.depth < MAX_WALK_DEPTH {
            let before = dirs_to(dir, tree(dir), n - 1);
            let c = child(dir, tree(dir)[n - 1]);
            assert(before.push(c).drop_last() =~= before);
        }
    }
}

proof fn lemma_listed_left(
    bases: Seq<Seq<char>>,
    tree: spec_fn(Place) -> Seq<EntryText>,
    n: nat,
)
    requires
        n <= listed_below(tree, top()),
    ensures
        listed_below_all(tree, walked(bases, tree, n).todo) == listed_below(tree, top()) - n,
    decreases n,
{
    if n == 0 {
        let todo = seq![top()];
        assert(todo.drop_last() =~= Seq::empty());
        assert(listed_below_all(tree, todo.drop_last()) == 0);
    } else {
        lemma_listed_left(bases, tree, (n - 1) as nat);
        let p = walked(bases, tree, (n - 1) as nat);
        let dir = p.todo.last();
        if dir.depth <= MAX_WALK_DEPTH {
            let more = dirs_to(dir, tree(dir), tree(dir).len() as int);
            lemma_listed_add(tree, p.todo.drop_last(), more);
            lemma_listed_dirs(tree, dir, tree(dir).len());
        }
    }
}

/// A walk ends: after so many directories as there are down to the depth at
/// which they are no longer listed, none is left to list.
pub proof fn law_walk_ends(bases: Seq<Seq<char>>, tree: spec_fn(Place) -> Seq<EntryText>)
    ensures
        walked(bases, tree, listed_below(tree, top())).todo.len() == 0,
{
    let n = listed_below(tree, top());
    lemma_listed_left(bases, tree, n);
    let todo = walked(bases, tree, n).todo;
    if todo.len() > 0 {
        assert(listed_below(tree, todo.last()) >= 1);
    }
}

/// Each directory that is listed in turn is one of the entries.
pub proof fn lemma_dirs_origin(dir: Place, entries: Seq<EntryText>, n: int, k: int)
    requires
        0 <= n <= entries.len(),
        0 <= k < dirs_to(dir, entries, n).len(),
    ensures
        exists|i: int|
            0 <= i < n && (#[trigger] entries[i]).is_dir && dirs_to(dir, entries, n)[k] == child(
                dir,
                entries[i],
            ),
        dir.depth < MAX_WALK_DEPTH,
    decreases n,
{
    let last = entries[n - 1].is_dir && dir.depth < MAX_WALK_DEPTH;
    if last && k == dirs_to(dir, entries, n).len() - 1 {
        assert(entries[n - 1].is_dir);
    } else {
        lemma_dirs_origin(dir, entries, n - 1, k);
        let i = choose|i: int|
            0 <= i < n - 1 && (#[trigger] entries[i]).is_dir && dirs_to(dir, entries, n - 1)[k]
                == child(dir, entries[i]);
        assert(entries[i].is_dir);
    }
}

/// Each entry that is a directory is listed in turn.
pub proof fn lemma_dirs_member(dir: Place, entries: Seq<EntryText>, n: int, i: int)
    requires
        0 <= i < n <= entries.len(),
        entries[i].is_dir,
        dir.depth < MAX_WALK_DEPTH,
    ensures
        dirs_to(dir, entries, n).contains(child(dir, entries[i])),
    decreases n,
{
    let s = dirs_to(dir, entries, n);
    if i == n - 1 {
        assert(s[s.len() - 1] == child(dir, entries[i]));
    } else {
        lemma_dirs_member(dir, entries, n - 1, i);
        let before = dirs_to(dir, entries, n - 1);
        let k = choose|k: int| 0 <= k < before.len() && before[k] == child(dir, entries[i]);
        assert(s[k] == child(dir, entries[i]));
    }
}

proof fn lemma_ours_member(
    bases: Seq<Seq<char>>,
    dir: Place,
    entries: Seq<EntryText>,
    n: int,
    i: int,
)
    requires
        0 <= i < n <= entries.len(),
        is_ours(bases, dir, entries[i]),
    ensures
        ours_to(bases, dir, entries, n).contains(child(dir, entries[i])),
    decreases n,
{
    let s = ours_to(bases, dir, entries, n);
    if i == n - 1 {
        assert(s[s.len() - 1] == child(dir, entries[i]));
    } else {
        lemma_ours_member(bases, dir, entries, n - 1, i);
        let before = ours_to(bases, dir, entries, n - 1);
        let k = choose|k: int| 0 <= k < before.len() && before[k] == child(dir, entries[i]);
        assert(s[k] == child(dir, entries[i]));
    }
}

/// Where a route leads from `dir`: through the entries with these places in
/// their listings.
pub open spec fn place_at(
    tree: spec_fn(Place) -> Seq<EntryText>,
    dir: Place,
    route: Seq<int>,
) -> Place
    decreases route.len(),
{
    if route.len() == 0 {
        dir
    } else {
        place_at(tree, child(dir, tree(dir)[route[0]]), route.skip(1))
    }
}

/// Whether a route leads from `dir` through directories that are listed to one
/// of the runner's cgroups.
pub open spec fn leads_to_ours(
    bases: Seq<Seq<char>>,
    tree: spec_fn(Place) -> Seq<EntryText>,
    dir: Place,
    route: Seq<int>,
) -> bool
    decreases route.len(),
{
    &&& route.len() > 0
    &&& dir.depth <= MAX_WALK_DEPTH
    &&& 0 <= route[0] < tree(dir).len()
    &&& tree(dir)[route[0]].is_dir
    &&& if route.len() == 1 {
        is_ours(bases, dir, tree(dir)[route[0]])
    } else {
        leads_to_ours(bases, tree, child(dir, tree(dir)[route[0]]), route.skip(1))
    }
}

/// Whether a place is one of the runner's cgroups below `dir`.
pub open spec fn is_ours_below(
    bases: Seq<Seq<char>>,
    tree: spec_fn(Place) -> Seq<EntryText>,
    dir: Place,
    p: Place,
) -> bool {
    exists|route: Seq<int>| #[trigger]
        leads_to_ours(bases, tree, dir, route) && place_at(tree, dir, route) == p
}

/// Whether a place is one of the runner's cgroups below one of `dirs`.
pub open spec fn is_ours_below_any(
    bases: Seq<Seq<char>>,
    tree: spec_fn(Place) -> Seq<EntryText>,
    dirs: Seq<Place>,
    p: Place,
) -> bool {
    exists|i: int| 0 <= i < dirs.len() && is_ours_below(bases, tree, #[trigger] dirs[i], p)
}

proof fn lemma_ours_below_listed(
    bases: Seq<Seq<char>>,
    tree: spec_fn(Place) -> Seq<EntryText>,
    dir: Place,
    p: Place,
)
    requires
        dir.depth <= MAX_WALK_DEPTH,
    ensures
        ({
            let n = tree(dir).len() as int;
            is_ours_below(bases, tree, dir, p) <==> ours_to(bases, dir, tree(dir), n).contains(p)
                || is_ours_below_any(bases, tree, dirs_to(dir, tree(dir), n), p)
        }),
{
    let es = tree(dir);
    let n = es.len() as int;
    let ours = ours_to(bases, dir, es, n);
    let dirs = dirs_to(dir, es, n);
    if is_ours_below(bases, tree, dir, p) {
        let route = choose|route: Seq<int>| #[trigger]
            leads_to_ours(bases, tree, dir, route) && place_at(tree, dir, route) == p;
        let i = route[0];
        let c = child(dir, es[i]);
        let rest = route.skip(1);
        if route.len() == 1 {
            assert(place_at(tree, c, rest) == c);
            lemma_ours_member(bases, dir, es, n, i);
        } else {
            assert(leads_to_ours(bases, tree, c, rest));
            lemma_dirs_member(dir, es, n, i);
            let k = choose|k: int| 0 <= k < dirs.len() && dirs[k] == c;
            assert(is_ours_below(bases, tree, dirs[k], p));
        }
    }
    if ours.contains(p) {
        let k = choose|k: int| 0 <= k < ours.len() && ours[k] == p;
        law_walk_reports_own(bases, dir, es, n, k);
        let i = choose|i: int|
            0 <= i < n && is_ours(bases, dir, #[trigger] es[i]) && ours[k] == child(dir, es[i]);
        let route = seq![i];
        assert(route.skip(1) =~= Seq::empty());
        assert(place_at(tree, child(dir, es[i]), route.skip(1)) == p);
        assert(leads_to_ours(bases, tree, dir, route));
    }
    if is_ours_below_any(bases, tree, dirs, p) {
        let k = choose|k: int|
            0 <= k < dirs.len() && is_ours_below(bases, tree, #[trigger] dirs[k], p);
        lemma_dirs_origin(dir, es, n, k);
        let i = choose|i: int|
            0 <= i < n && (#[trigger] es[i]).is_dir && dirs[k] == child(dir, es[i]);
        let rest = choose|route: Seq<int>| #[trigger]
            leads_to_ours(bases, tree, dirs[k], route) && place_at(tree, dirs[k], route) == p;
        let route = seq![i] + rest;
        assert(route.skip(1) =~= rest);
        assert(leads_to_ours(bases, tree, dir, route));
    }
}

proof fn lemma_walk_finds(
    bases: Seq<Seq<char>>,
    tree: spec_fn(Place) -> Seq<EntryText>,
    n: nat,
    p: Place,
)
    ensures
        ({
            let w = walked(bases, tree, n);
            is_ours_below(bases, tree, top(), p) <==> w.found.contains(p) || is_ours_below_any(
                bases,
                tree,
                w.todo,
                p,
            )
        }),
    decreases n,
{
    let w = walked(bases, tree, n);
    if n == 0 {
        assert(w.todo[0] == top());
    } else {
        lemma_walk_finds(bases, tree, (n - 1) as nat, p);
        lemma_walk_sum(bases, tree, (n - 1) as nat);
        let v = walked(bases, tree, (n - 1) as nat);
        if v.todo.len() > 0 {
            let dir = v.todo.last();
            let m = v.todo.len() - 1;
            lemma_ours_below_listed(bases, tree, dir, p);
            let ours = ours_to(bases, dir, tree(dir), tree(dir).len() as int);
            let dirs = dirs_to(dir, tree(dir), tree(dir).len() as int);
            if v.found.contains(p) {
                let k = choose|k: int| 0 <= k < v.found.len() && v.found[k] == p;
                assert(w.found[k] == p);
            }
            if ours.contains(p) {
                let k = choose|k: int| 0 <= k < ours.len() && ours[k] == p;
                assert(w.found[v.found.len() + k] == p);
            }
            if w.found.contains(p) {
                let k = choose|k: int| 0 <= k < w.found.len() && w.found[k] == p;
                if k < v.found.len() {
                    assert(v.found[k] == p);
                } else {
                    assert(ours[k - v.found.len()] == p);
                }
            }
            if is_ours_below_any(bases, tree, v.todo, p) {
                let k = choose|k: int|
                    0 <= k < v.todo.len() && is_ours_below(bases, tree, #[trigger] v.todo[k], p);
                if k < m {
                    assert(w.todo[k] == v.todo[k]);
                }
            }
            if is_ours_below_any(bases, tree, dirs, p) {
                let k = choose|k: int|
                    0 <= k < dirs.len() && is_ours_below(bases, tree, #[trigger] dirs[k], p);
                assert(w.todo[m + k] == dirs[k]);
            }
            if is_ours_below_any(bases, tree, w.todo, p) {
                let k = choose|k: int|
                    0 <= k < w.todo.len() && is_ours_below(bases, tree, #[trigger] w.todo[k], p);
                if k < m {
                    assert(v.todo[k] == w.todo[k]);
                } else {
                    assert(dirs[k - m] == w.todo[k]);
                }
            }
            if is_ours_below(bases, tree, dir, p) {
                assert(v.todo[m] == dir);
            }
        }
    }
}

proof fn lemma_route_depth(
    bases: Seq<Seq<char>>,
    tree: spec_fn(Place) -> Seq<EntryText>,
    dir: Place,
    route: Seq<int>,
)
    requires
        leads_to_ours(bases, tree, dir, route),
    ensures
        place_at(tree, dir, route).depth == dir.depth + route.len(),
        dir.depth + route.len() <= MAX_WALK_DEPTH + 1,
    decreases route.len(),
{
    let c = child(dir, tree(dir)[route[0]]);
    if route.len() > 1 {
        lemma_route_depth(bases, tree, c, route.skip(1));
    } else {
        assert(place_at(tree, c, route.skip(1)) == c);
    }
}

/// A whole walk finds a place exactly where a route leads there from the top,
/// through directories that are listed, and it is one of the runner's cgroups:
/// a directory that is a cgroup, and that lies at or below a base or is named as
/// a transient leaf. The top itself is never found, nor anything deeper than one
/// level below the last that is listed.
pub proof fn law_walk_finds(
    bases: Seq<Seq<char>>,
    tree: spec_fn(Place) -> Seq<EntryText>,
    n: nat,
    p: Place,
)
    requires
        walked(bases, tree, n).todo.len() == 0,
    ensures
        walked(bases, tree, n).found.contains(p) <==> is_ours_below(bases, tree, top(), p),
        walked(bases, tree, n).found.contains(p) ==> 1 <= p.depth <= MAX_WALK_DEPTH + 1,
{
    lemma_walk_finds(bases, tree, n, p);
    if is_ours_below(bases, tree, top(), p) {
        let route = choose|route: Seq<int>| #[trigger]
            leads_to_ours(bases, tree, top(), route) && place_at(tree, top(), route) == p;
        lemma_route_depth(bases, tree, top(), route);
    }
}

/// Whether a listing is one that a directory can have: each entry has a name of
/// its own, which is not empty and holds no slash.
pub open spec fn is_listing(entries: Seq<EntryText>) -> bool {
    &&& forall|i: int| 0 <= i < entries.len() ==> is_entry_name((#[trigger] entries[i]).name)
    &&& forall|i: int, j: int|
        0 <= i < j < entries.len() ==> (#[trigger] entries[i]).name != (#[trigger] entries[j]).name
}

/// Whether the listings of a tree are such as directories can have.
pub open spec fn is_tree(tree: spec_fn(Place) -> Seq<EntryText>) -> bool {
    forall|dir: Place| is_listing(#[trigger] tree(dir))
}

/// Whether the directories of a walk that are still to list are apart from each
/// other, nothing found lies below one of them, no path is found twice, and all
/// depths fit.
pub open spec fn is_tidy(p: Progress) -> bool {
    &&& forall|i: int, j: int|
        0 <= i < j < p.todo.len() ==> apart((#[trigger] p.todo[i]).rel, (#[trigger] p.todo[j]).rel)
    &&& forall|i: int, j: int|
        0 <= i < p.todo.len() && 0 <= j < p.found.len() ==> !is_inside(
            (#[trigger] p.todo[i]).rel,
            (#[trigger] p.found[j]).rel,
        )
    &&& paths_differ(p.found)
    &&& forall|i: int|
        0 <= i < p.todo.len() ==> depth_fits(#[trigger] p.todo[i]) || p.todo[i] == top()
    &&& forall|i: int| 0 <= i < p.found.len() ==> depth_fits(#[trigger] p.found[i])
}

proof fn lemma_dirs_apart(dir: Place, entries: Seq<EntryText>, n: int)
    requires
        is_listing(entries),
        0 <= n <= entries.len(),
    ensures
        ({
            let s = dirs_to(dir, entries, n);
            forall|i: int, j: int|
                0 <= i < j < s.len() ==> apart((#[trigger] s[i]).rel, (#[trigger] s[j]).rel)
        }),
    decreases n,
{
    if n > 0 {
        lemma_dirs_apart(dir, entries, n - 1);
        let before = dirs_to(dir, entries, n - 1);
        let s = dirs_to(dir, entries, n);
        assert forall|i: int, j: int| 0 <= i < j < s.len() implies apart(
            (#[trigger] s[i]).rel,
            (#[trigger] s[j]).rel,
        ) by {
            assert(s[i] == before[i]);
            if j < before.len() {
                assert(s[j] == before[j]);
            } else {
                lemma_dirs_origin(dir, entries, n - 1, i);
                let k = choose|k: int|
                    0 <= k < n - 1 && (#[trigger] entries[k]).is_dir && before[i] == child(
                        dir,
                        entries[k],
                    );
                assert(entries[k].name != entries[n - 1].name);
                lemma_under_apart(dir.rel, entries[k].name, entries[n - 1].name);
            }
        }
    }
}

proof fn lemma_ours_differ(
    bases: Seq<Seq<char>>,
    dir: Place,
    entries: Seq<EntryText>,
    n: int,
)
    requires
        is_listing(entries),
        0 <= n <= entries.len(),
    ensures
        paths_differ(ours_to(bases, dir, entries, n)),
    decreases n,
{
    if n > 0 {
        lemma_ours_differ(bases, dir, entries, n - 1);
        let before = ours_to(bases, dir, entries, n - 1);
        let s = ours_to(bases, dir, entries, n);
        assert forall|i: int, j: int| 0 <= i < j < s.len() implies (#[trigger] s[i]).rel != (
        #[trigger] s[j]).rel by {
            assert(s[i] == before[i]);
            if j < before.len() {
                assert(s[j] == before[j]);
            } else {
                law_walk_reports_own(bases, dir, entries, n - 1, i);
                let k = choose|k: int|
                    0 <= k < n - 1 && is_ours(bases, dir, #[trigger] entries[k]) && before[i]
                        == child(dir, entries[k]);
                assert(entries[k].name != entries[n - 1].name);
                lemma_under_apart(dir.rel, entries[k].name, entries[n - 1].name);
            }
        }
    }
}

/// The name with which something stands in the listing of `dir`.
proof fn lemma_dirs_name(dir: Place, entries: Seq<EntryText>, k: int) -> (name: Seq<char>)
    requires
        is_listing(entries),
        0 <= k < dirs_to(dir, entries, entries.len() as int).len(),
        depth_fits(dir) || dir == top(),
    ensures
        is_entry_name(name),
        dirs_to(dir, entries, entries.len() as int)[k].rel == under(dir.rel, name),
        depth_fits(dirs_to(dir, entries, entries.len() as int)[k]),
{
    let n = entries.len() as int;
    lemma_dirs_origin(dir, entries, n, k);
    let i = choose|i: int|
        0 <= i < n && (#[trigger] entries[i]).is_dir && dirs_to(dir, entries, n)[k] == child(
            dir,
            entries[i],
        );
    law_depth_fits(dir, entries[i]);
    entries[i].name
}

proof fn lemma_ours_name(
    bases: Seq<Seq<char>>,
    dir: Place,
    entries: Seq<EntryText>,
    k: int,
) -> (name: Seq<char>)
    requires
        is_listing(entries),
        0 <= k < ours_to(bases, dir, entries, entries.len() as int).len(),
        depth_fits(dir) || dir == top(),
    ensures
        is_entry_name(name),
        ours_to(bases, dir, entries, entries.len() as int)[k].rel == under(dir.rel, name),
        depth_fits(ours_to(bases, dir, entries, entries.len() as int)[k]),
{
    let n = entries.len() as int;
    law_walk_reports_own(bases, dir, entries, n, k);
    let i = choose|i: int|
        0 <= i < n && is_ours(bases, dir, #[trigger] entries[i]) && ours_to(
            bases,
            dir,
            entries,
            n,
        )[k] == child(dir, entries[i]);
    law_depth_fits(dir, entries[i]);
    entries[i].name
}

proof fn lemma_step_tidy(
    bases: Seq<Seq<char>>,
    tree: spec_fn(Place) -> Seq<EntryText>,
    p: Progress,
)
    requires
        is_tree(tree),
        is_tidy(p),
    ensures
        is_tidy(stepped(bases, tree, p)),
{
    let dir = p.todo.last();
    if p.todo.len() > 0 && dir.depth <= MAX_WALK_DEPTH {
        let q = stepped(bases, tree, p);
        let es = tree(dir);
        let n = es.len() as int;
        let dirs = dirs_to(dir, es, n);
        let ours = ours_to(bases, dir, es, n);
        let m = p.todo.len() - 1;
        let f = p.found.len() as int;
        assert(is_listing(tree(dir)));
        assert(dir == p.todo[m]);
        lemma_dirs_apart(dir, es, n);
        lemma_ours_differ(bases, dir, es, n);
        assert forall|i: int| 0 <= i < q.todo.len() implies depth_fits(#[trigger] q.todo[i])
            || q.todo[i] == top() by {
            if i < m {
                assert(q.todo[i] == p.todo[i]);
            } else {
                assert(q.todo[i] == dirs[i - m]);
                lemma_dirs_name(dir, es, i - m);
            }
        }
        assert forall|i: int| 0 <= i < q.found.len() implies depth_fits(#[trigger] q.found[i]) by {
            if i < f {
                assert(q.found[i] == p.found[i]);
            } else {
                assert(q.found[i] == ours[i - f]);
                lemma_ours_name(bases, dir, es, i - f);
            }
        }
        assert forall|i: int, j: int| 0 <= i < j < q.todo.len() implies apart(
            (#[trigger] q.todo[i]).rel,
            (#[trigger] q.todo[j]).rel,
        ) by {
            if j < m {
                assert(q.todo[i] == p.todo[i] && q.todo[j] == p.todo[j]);
            } else {
                assert(q.todo[j] == dirs[j - m]);
                if i < m {
                    assert(q.todo[i] == p.todo[i]);
                    assert(apart(p.todo[i].rel, p.todo[m].rel));
                    let name = lemma_dirs_name(dir, es, j - m);
                    lemma_under_keeps_apart(dir.rel, name, p.todo[i].rel);
                } else {
                    assert(q.todo[i] == dirs[i - m]);
                }
            }
        }
        assert forall|i: int, j: int|
            0 <= i < q.todo.len() && 0 <= j < q.found.len() implies !is_inside(
            (#[trigger] q.todo[i]).rel,
            (#[trigger] q.found[j]).rel,
        ) by {
            let t = q.todo[i].rel;
            let g = q.found[j].rel;
            if i < m {
                assert(q.todo[i] == p.todo[i]);
                assert(apart(p.todo[i].rel, p.todo[m].rel));
                if j < f {
                    assert(q.found[j] == p.found[j]);
                } else {
                    assert(q.found[j] == ours[j - f]);
                    let name = lemma_ours_name(bases, dir, es, j - f);
                    lemma_under(dir.rel, name, t);
                }
            } else {
                assert(q.todo[i] == dirs[i - m]);
                let name = lemma_dirs_name(dir, es, i - m);
                lemma_under(dir.rel, name, g);
                if is_inside(t, g) {
                    if j < f {
                        assert(q.found[j] == p.found[j]);
                        lemma_inside_transitive(dir.rel, t, g);
                        assert(!is_inside(p.todo[m].rel, p.found[j].rel));
                    } else {
                        assert(q.found[j] == ours[j - f]);
                        let own = lemma_ours_name(bases, dir, es, j - f);
                        lemma_under(dir.rel, own, t);
                        lemma_inside_longer(dir.rel, t);
                        if is_inside(t, dir.rel) {
                            lemma_inside_longer(t, dir.rel);
                        }
                    }
                }
            }
        }
        assert forall|i: int, j: int| 0 <= i < j < q.found.len() implies (
        #[trigger] q.found[i]).rel != (#[trigger] q.found[j]).rel by {
            if j < f {
                assert(q.found[i] == p.found[i] && q.found[j] == p.found[j]);
            } else {
                assert(q.found[j] == ours[j - f]);
                if i < f {
                    assert(q.found[i] == p.found[i]);
                    let name = lemma_ours_name(bases, dir, es, j - f);
                    lemma_under(dir.rel, name, dir.rel);
                    assert(!is_inside(p.todo[m].rel, p.found[i].rel));
                } else {
                    assert(q.found[i] == ours[i - f]);
                }
            }
        }
    }
}

proof fn lemma_walk_tidy(
    bases: Seq<Seq<char>>,
    tree: spec_fn(Place) -> Seq<EntryText>,
    n: nat,
)
    requires
        is_tree(tree),
    ensures
        is_tidy(walked(bases, tree, n)),
    decreases n,
{
    if n > 0 {
        lemma_walk_tidy(bases, tree, (n - 1) as nat);
        lemma_step_tidy(bases, tree, walked(bases, tree, (n - 1) as nat));
    }
}

/// A walk finds no path twice, and the depth of whatever it finds is the number
/// of names in its path.
pub proof fn law_walk_finds_once(
    bases: Seq<Seq<char>>,
    tree: spec_fn(Place) -> Seq<EntryText>,
    n: nat,
)
    requires
        is_tree(tree),
    ensures
        paths_differ(walked(bases, tree, n).found),
        forall|i: int|
            0 <= i < walked(bases, tree, n).found.len() ==> depth_fits(
                #[trigger] walked(bases, tree, n).found[i],
            ),
{
    lemma_walk_tidy(bases, tree, n);
}

/// What a walk has found comes out strictly ordered: what stands earlier is
/// deeper, or as deep and first by its path. So everything below a cgroup comes
/// before that cgroup.
pub proof fn law_found_in_strict_order(
    bases: Seq<Seq<char>>,
    tree: spec_fn(Place) -> Seq<EntryText>,
    n: nat,
    s: Seq<Place>,
)
    requires
        is_tree(tree),
        deepest_first(s),
        s.to_multiset() == walked(bases, tree, n).found.to_multiset(),
    ensures
        strictly_deepest_first(s),
        forall|i: int| 0 <= i < s.len() ==> depth_fits(#[trigger] s[i]),
        forall|i: int, j: int|
            0 <= i < s.len() && 0 <= j < s.len() && begins(
                (#[trigger] s[j]).rel,
                (#[trigger] s[i]).rel + "/"@,
            ) ==> j < i,
{
    let found = walked(bases, tree, n).found;
    lemma_walk_tidy(bases, tree, n);
    lemma_paths_differ(found, s);
    lemma_strictly(s);
    s.to_multiset_ensures();
    found.to_multiset_ensures();
    assert forall|i: int| 0 <= i < s.len() implies depth_fits(#[trigger] s[i]) by {
        assert(s.contains(s[i]));
        assert(found.to_multiset().count(s[i]) > 0);
        let k = choose|k: int| 0 <= k < found.len() && found[k] == s[i];
        assert(depth_fits(found[k]));
    }
    assert forall|i: int, j: int|
        0 <= i < s.len() && 0 <= j < s.len() && begins(
            (#[trigger] s[j]).rel,
            (#[trigger] s[i]).rel + "/"@,
        ) implies j < i by {
        law_children_before_parents(s, i, j);
    }
}

/// Whether a path below the mount is that of the mount itself, or made of names
/// and without a slash at its end.
pub open spec fn is_place(rel: Seq<char>) -> bool {
    rel.len() == 0 || (names_below(rel) && rel.last() != '/')
}

/// Listing and removing go by the same rule: what a walk takes for one of the
/// runner's cgroups is what is signalled and removed as one.
pub proof fn law_ours_is_removed(
    mount: Seq<char>,
    base: Seq<char>,
    dir: Place,
    e: EntryText,
)
    requires
        is_place(dir.rel),
        is_name(e.name),
    ensures
        is_place(child(dir, e).rel),
        is_ours(seq![base, ROOT_BASE@], dir, e) <==> e.is_dir && e.is_cgroup && cgrun_target(
            mount,
            base,
            full_path(mount, child(dir, e).rel),
        ),
{
    let rel = child(dir, e).rel;
    assert(e.name[e.name.len() - 1] != '/');
    if dir.rel.len() == 0 {
        lemma_name_alone(e.name);
    } else {
        lemma_name_placed(dir.rel, e.name);
    }
    lemma_below_full(mount, rel);
}

/// Whether all entries of a tree have names that are names in paths.
pub open spec fn has_names(tree: spec_fn(Place) -> Seq<EntryText>) -> bool {
    forall|dir: Place, i: int|
        0 <= i < tree(dir).len() ==> is_name((#[trigger] tree(dir)[i]).name)
}

/// Whether everything found is removed as the runner's own, and the directories
/// still to list are places below the mount.
pub open spec fn is_removable(mount: Seq<char>, base: Seq<char>, p: Progress) -> bool {
    &&& forall|i: int| 0 <= i < p.todo.len() ==> is_place((#[trigger] p.todo[i]).rel)
    &&& forall|i: int|
        0 <= i < p.found.len() ==> cgrun_target(
            mount,
            base,
            full_path(mount, (#[trigger] p.found[i]).rel),
        )
}

/// Whatever a walk over the base and the base of root's cgroups finds is the
/// runner's own to remove.
pub proof fn law_found_is_removed(
    mount: Seq<char>,
    base: Seq<char>,
    tree: spec_fn(Place) -> Seq<EntryText>,
    n: nat,
)
    requires
        has_names(tree),
    ensures
        is_removable(mount, base, walked(seq![base, ROOT_BASE@], tree, n)),
    decreases n,
{
    let bases = seq![base, ROOT_BASE@];
    if n > 0 {
        law_found_is_removed(mount, base, tree, (n - 1) as nat);
        let p = walked(bases, tree, (n - 1) as nat);
        let q = walked(bases, tree, n);
        let dir = p.todo.last();
        if p.todo.len() > 0 && dir.depth <= MAX_WALK_DEPTH {
            let es = tree(dir);
            let len = es.len() as int;
            let dirs = dirs_to(dir, es, len);
            let ours = ours_to(bases, dir, es, len);
            let m = p.todo.len() - 1;
            assert(p.todo[m] == dir);
            assert forall|i: int| 0 <= i < q.todo.len() implies is_place(
                (#[trigger] q.todo[i]).rel,
            ) by {
                if i < m {
                    assert(q.todo[i] == p.todo[i]);
                } else {
                    assert(q.todo[i] == dirs[i - m]);
                    lemma_dirs_origin(dir, es, len, i - m);
                    let k = choose|k: int|
                        0 <= k < len && (#[trigger] es[k]).is_dir && dirs[i - m] == child(
                            dir,
                            es[k],
                        );
                    law_ours_is_removed(mount, base, dir, tree(dir)[k]);
                }
            }
            assert forall|i: int| 0 <= i < q.found.len() implies cgrun_target(
                mount,
                base,
                full_path(mount, (#[trigger] q.found[i]).rel),
            ) by {
                let f = p.found.len() as int;
                if i < f {
                    assert(q.found[i] == p.found[i]);
                } else {
                    assert(q.found[i] == ours[i - f]);
                    law_walk_reports_own(bases, dir, es, len, i - f);
                    let k = choose|k: int|
                        0 <= k < len && is_ours(bases, dir, #[trigger] es[k]) && ours[i - f]
                            == child(dir, es[k]);
                    law_ours_is_removed(mount, base, dir, tree(dir)[k]);
                }
            }
        }
    }
}

} // verus!
