//! What holds of the places at which runs make their cgroups.

use vstd::prelude::*;

use crate::cgroup::{full_path, in_tree, is_transient, transient_name, under_base};
use crate::kill::{cgrun_target, BASE, ROOT_BASE};
use crate::number::{all_digits, all_hex_digits, decimal, hex4, is_hex_digit, lemma_decimal};
use crate::path::{
    below, file_name, is_name, joined, leads_with_dot, lemma_joined_components, lemma_name_parts,
    lemma_parent_components, lemma_parts_placed, parent, part_text, parts, shifted, Kind, Part,
};
use crate::privilege::{lemma_names_stay_below, names_below, rel_fault};
use crate::run::{all_name_chars, home, is_name_char, leaf_place, leaf_tag, name_fault};
use crate::text::{
    back_stripped, begins, ends, front_stripped, is_space, lemma_index_from, stripped, trimmed,
    Margin,
};

verus! {

/// Whether a name is one component of a path.
pub open spec fn is_plain(name: Seq<char>) -> bool {
    name.len() > 0 && all_name_chars(name) && name != "."@ && name != ".."@
}

/// A valid name is one component of a path.
pub proof fn lemma_valid_name_is_plain(name: Seq<char>)
    requires
        name_fault(name) is None,
    ensures
        is_plain(name),
{
    if name.len() == 0 {
        assert(trimmed(name) =~= name);
    }
}

/// The name of a transient leaf is one component of a path.
pub proof fn lemma_transient_name_is_plain(name: Seq<char>)
    requires
        is_transient(name),
    ensures
        is_plain(name),
{
    let (pid, tag) = choose|pid: Seq<char>, tag: Seq<char>|
        {
            &&& name == #[trigger] transient_name(pid, tag)
            &&& pid.len() > 0
            &&& all_digits(pid)
            &&& tag.len() == 4
            &&& all_hex_digits(tag)
        };
    reveal_strlit("cgrun-");
    reveal_strlit("-");
    reveal_strlit(".scope");
    reveal_strlit(".");
    reveal_strlit("..");
    assert forall|i: int| 0 <= i < name.len() implies is_name_char(#[trigger] name[i]) by {
        let k = 6 + pid.len() as int;
        if i < 6 {
            assert(name[i] == "cgrun-"@[i]);
        } else if i < k {
            assert(name[i] == pid[i - 6]);
        } else if i == k {
            assert(name[i] == '-');
        } else if i < k + 5 {
            assert(name[i] == tag[i - k - 1]);
            assert(is_hex_digit(tag[i - k - 1]));
        } else {
            assert(name[i] == ".scope"@[i - k - 5]);
        }
    }
}

proof fn lemma_name_char(c: char)
    requires
        is_name_char(c),
    ensures
        c != '/',
        !is_space(c),
{
}

proof fn lemma_plain_parts(name: Seq<char>)
    requires
        is_plain(name),
    ensures
        is_name(name),
        !is_space(name.last()),
{
    reveal_strlit(".");
    reveal_strlit("..");
    assert forall|j: int| 0 <= j < name.len() implies #[trigger] name[j] != '/' by {
        lemma_name_char(name[j]);
    }
    assert(is_name_char(name[name.len() - 1]));
    lemma_name_char(name[name.len() - 1]);
    if name.len() == 1 && name[0] == '.' {
        assert(name =~= "."@);
    }
    if name.len() == 2 && name[0] == '.' && name[1] == '.' {
        assert(name =~= ".."@);
    }
}

proof fn lemma_front_keeps_last(s: Seq<char>, m: Margin)
    requires
        s.len() > 0,
        !m.has(s.last()),
    ensures
        front_stripped(s, m).len() > 0,
        front_stripped(s, m).last() == s.last(),
    decreases s.len(),
{
    if m.has(s[0]) {
        lemma_front_keeps_last(s.skip(1), m);
    }
}

proof fn lemma_back_end(s: Seq<char>, m: Margin)
    ensures
        back_stripped(s, m).len() > 0 ==> !m.has(back_stripped(s, m).last()),
    decreases s.len(),
{
    if s.len() > 0 && m.has(s.last()) {
        lemma_back_end(s.drop_last(), m);
    }
}

proof fn lemma_trimmed_end(s: Seq<char>)
    requires
        s.len() > 0,
        !is_space(s.last()),
    ensures
        trimmed(s).len() > 0,
{
    lemma_front_keeps_last(s, Margin::Space);
}

/// A name in a directory of names is a path of names that ends with it.
pub proof fn lemma_name_placed(dir: Seq<char>, name: Seq<char>)
    requires
        names_below(dir),
        dir.last() != '/',
        is_name(name),
    ensures
        ({
            let rel = dir + "/"@ + name;
            &&& names_below(rel)
            &&& rel.last() == name.last()
            &&& parts(rel).len() > 0
            &&& parts(rel)[0].start == 0
            &&& parts(rel).last().end == rel.len()
            &&& file_name(rel) == Some(name)
        }),
{
    let rel = dir + "/"@ + name;
    reveal_strlit("/");
    assert(rel =~= joined(dir, name));
    lemma_name_parts(name);
    lemma_joined_components(dir, name);
    lemma_parts_placed(dir);
    let k = rel.len() - name.len();
    assert(parts(rel) =~= parts(dir).push(
        Part { kind: Kind::Name, start: k, end: rel.len() as int },
    ));
    assert forall|i: int| 0 <= i < parts(rel).len() implies (#[trigger] parts(rel)[i]).kind
        == Kind::Name by {
        if i < parts(dir).len() {
            assert(parts(dir)[i].kind == Kind::Name);
        }
    }
    assert(rel[0] == dir[0]);
    assert(rel.last() == name.last());
    assert(part_text(rel, parts(rel).last()) =~= name);
    lemma_index_from(rel, '/', 0);
    if leads_with_dot(rel) {
        assert(parts(rel)[0].kind == Kind::Here);
    }
}

/// A name by itself is a path of names.
pub proof fn lemma_name_alone(name: Seq<char>)
    requires
        is_name(name),
    ensures
        names_below(name),
        parts(name).len() > 0,
        parts(name)[0].start == 0,
        parts(name).last().end == name.len(),
        file_name(name) == Some(name),
{
    lemma_name_parts(name);
    assert(part_text(name, parts(name).last()) =~= name);
}

/// A plain name in a directory of names is a valid path that ends with it.
pub proof fn lemma_placed(dir: Seq<char>, name: Seq<char>)
    requires
        names_below(dir),
        dir.last() != '/',
        is_plain(name),
    ensures
        ({
            let rel = dir + "/"@ + name;
            &&& names_below(rel)
            &&& rel_fault(rel) is None
            &&& parts(rel).len() > 0
            &&& parts(rel)[0].start == 0
            &&& parts(rel).last().end == rel.len()
            &&& file_name(rel) == Some(name)
        }),
{
    lemma_plain_parts(name);
    lemma_name_placed(dir, name);
    lemma_trimmed_end(dir + "/"@ + name);
}

/// A plain name is a path of names by itself.
pub proof fn lemma_plain_placed(name: Seq<char>)
    requires
        is_plain(name),
    ensures
        names_below(name),
        rel_fault(name) is None,
        parts(name).len() > 0,
        parts(name)[0].start == 0,
        parts(name).last().end == name.len(),
        file_name(name) == Some(name),
{
    lemma_plain_parts(name);
    lemma_name_alone(name);
    lemma_trimmed_end(name);
}

proof fn lemma_bases()
    ensures
        is_plain(BASE@),
        is_plain(ROOT_BASE@),
        names_below(BASE@),
        names_below(ROOT_BASE@),
        BASE@.last() != '/',
        ROOT_BASE@.last() != '/',
{
    reveal_strlit("cgrun");
    reveal_strlit("cgrun-root");
    reveal_strlit(".");
    reveal_strlit("..");
    assert(BASE@ == "cgrun"@);
    assert(ROOT_BASE@ == "cgrun-root"@);
    lemma_plain_placed(BASE@);
    assert forall|i: int| 0 <= i < ROOT_BASE@.len() implies is_name_char(
        #[trigger] ROOT_BASE@[i],
    ) by {
        assert(i == 0 || i == 1 || i == 2 || i == 3 || i == 4 || i == 5 || i == 6 || i == 7 || i
            == 8 || i == 9);
    }
    lemma_plain_placed(ROOT_BASE@);
}

/// Whether the cgroup in which a run without privileges makes its own is one
/// that can hold cgroups: the mount, or a path of names below it.
pub open spec fn can_hold(current: Seq<char>) -> bool {
    home(current).len() == 0 || names_below(home(current))
}

proof fn lemma_home_end(current: Seq<char>)
    ensures
        home(current).len() > 0 ==> home(current).last() != '/',
{
    let cur = stripped(current, Margin::Slash);
    lemma_back_end(front_stripped(current, Margin::Slash), Margin::Slash);
    match parent(cur) {
        Some(p) => {
            lemma_back_end(front_stripped(p, Margin::Slash), Margin::Slash);
        },
        None => {},
    }
}

proof fn lemma_leaf_place(priv_: bool, is_root: bool, name: Seq<char>, current: Seq<char>)
    requires
        is_plain(name),
        !priv_ && !is_root ==> can_hold(current),
    ensures
        ({
            let rel = leaf_place(priv_, is_root, name, current);
            &&& names_below(rel)
            &&& rel_fault(rel) is None
            &&& parts(rel).len() > 0
            &&& parts(rel)[0].start == 0
            &&& parts(rel).last().end == rel.len()
            &&& file_name(rel) == Some(name)
        }),
{
    lemma_bases();
    if priv_ {
        lemma_placed(BASE@, name);
    } else if is_root {
        lemma_placed(ROOT_BASE@, name);
    } else if home(current).len() == 0 {
        lemma_plain_placed(name);
    } else {
        lemma_home_end(current);
        lemma_placed(home(current), name);
    }
}

/// The name that a run makes up for its cgroup is that of a transient leaf.
pub proof fn law_generated_names_are_transient(pid: u32, nanos: u32)
    ensures
        is_transient(transient_name(decimal(pid as nat), hex4(leaf_tag(pid, nanos) as nat))),
{
    let tag = hex4(leaf_tag(pid, nanos) as nat);
    lemma_decimal(pid as nat);
    assert(all_hex_digits(tag));
    assert(tag.len() == 4);
}

/// A run's cgroup has a valid path, whether its name was given or made up.
pub proof fn law_leaf_paths_are_valid(
    priv_: bool,
    is_root: bool,
    name: Seq<char>,
    current: Seq<char>,
)
    requires
        name_fault(name) is None || is_transient(name),
        !priv_ && !is_root ==> can_hold(current),
    ensures
        rel_fault(leaf_place(priv_, is_root, name, current)) is None,
{
    if is_transient(name) {
        lemma_transient_name_is_plain(name);
    } else {
        lemma_valid_name_is_plain(name);
    }
    lemma_leaf_place(priv_, is_root, name, current);
}

/// A path of names is what is left of its place below the mount.
pub proof fn lemma_below_full(mount: Seq<char>, rel: Seq<char>)
    requires
        names_below(rel),
        parts(rel).len() > 0,
        parts(rel)[0].start == 0,
        parts(rel).last().end == rel.len(),
    ensures
        below(mount, full_path(mount, rel)) == Some(rel),
        file_name(full_path(mount, rel)) == file_name(rel),
{
    let p = full_path(mount, rel);
    lemma_names_stay_below(mount, rel);
    assert(front_stripped(rel, Margin::Slash) =~= rel);
    if leads_with_dot(rel) {
        assert(parts(rel)[0].kind == Kind::Here);
    }
    lemma_joined_components(mount, rel);
    lemma_parts_placed(rel);
    let k = p.len() - rel.len();
    let n = parts(mount).len() as int;
    assert(parts(p)[n] == shifted(parts(rel), k)[0]);
    assert(parts(p).last() == shifted(parts(rel), k).last());
    assert(p.subrange(k, p.len() as int) =~= rel);
    assert(part_text(p, parts(p).last()) =~= part_text(rel, parts(rel).last()));
}

/// A run's cgroup is known again as the runner's own: one made with privileges
/// or by root by where it lies, and a transient one wherever it lies.
pub proof fn law_leaves_are_recognized(
    mount: Seq<char>,
    priv_: bool,
    is_root: bool,
    name: Seq<char>,
    current: Seq<char>,
)
    requires
        name_fault(name) is None || is_transient(name),
        !priv_ && !is_root ==> can_hold(current) && is_transient(name),
    ensures
        cgrun_target(
            mount,
            BASE@,
            full_path(mount, leaf_place(priv_, is_root, name, current)),
        ),
{
    if is_transient(name) {
        lemma_transient_name_is_plain(name);
    } else {
        lemma_valid_name_is_plain(name);
    }
    let rel = leaf_place(priv_, is_root, name, current);
    lemma_leaf_place(priv_, is_root, name, current);
    lemma_below_full(mount, rel);
    let bases = seq![BASE@, ROOT_BASE@];
    lemma_bases();
    if priv_ || is_root {
        let i: int = if priv_ {
            0
        } else {
            1
        };
        let b = bases[i];
        assert(front_stripped(b, Margin::Slash) =~= b) by {
            assert(b[0] != '/');
        }
        assert(stripped(b, Margin::Slash) =~= b);
        assert(rel.take((b + "/"@).len() as int) =~= b + "/"@);
        assert(in_tree(b, rel));
        assert(under_base(rel, bases[i]));
    }
}

proof fn lemma_stripped_shorter(s: Seq<char>, m: Margin)
    ensures
        front_stripped(s, m).len() <= s.len(),
        back_stripped(s, m).len() <= s.len(),
    decreases s.len(),
{
    if s.len() > 0 {
        if m.has(s[0]) {
            lemma_stripped_shorter(s.skip(1), m);
        }
        if m.has(s.last()) {
            lemma_stripped_shorter(s.drop_last(), m);
        }
    }
}

proof fn lemma_scope_home(current: Seq<char>)
    requires
        ends(stripped(current, Margin::Slash), ".scope"@),
    ensures
        home(current).len() < stripped(current, Margin::Slash).len(),
{
    reveal_strlit(".scope");
    let cur = stripped(current, Margin::Slash);
    match parent(cur) {
        Some(p) => {
            lemma_parent_components(cur);
            lemma_stripped_shorter(p, Margin::Slash);
            lemma_stripped_shorter(front_stripped(p, Margin::Slash), Margin::Slash);
        },
        None => {},
    }
}

/// A run with privileges makes its cgroup below the system's base, root's run
/// below the base of root's cgroups, and any other run in the current cgroup
/// or, where that is a scope, in the one above it: never below a scope that the
/// run itself is in.
pub proof fn law_leaf_placement(
    priv_: bool,
    is_root: bool,
    name: Seq<char>,
    current: Seq<char>,
)
    requires
        is_plain(name),
    ensures
        ({
            let rel = leaf_place(priv_, is_root, name, current);
            let cur = stripped(current, Margin::Slash);
            &&& priv_ ==> begins(rel, BASE@ + "/"@)
            &&& !priv_ && is_root ==> begins(rel, ROOT_BASE@ + "/"@)
            &&& !priv_ && !is_root && home(current).len() > 0 ==> begins(rel, home(current) + "/"@)
            &&& !priv_ && !is_root && !ends(cur, ".scope"@) ==> home(current) == cur
            &&& !priv_ && !is_root && ends(cur, ".scope"@) ==> !begins(rel, cur + "/"@)
        }),
{
    reveal_strlit("/");
    let rel = leaf_place(priv_, is_root, name, current);
    let cur = stripped(current, Margin::Slash);
    if priv_ {
        assert(rel.take((BASE@ + "/"@).len() as int) =~= BASE@ + "/"@);
    } else if is_root {
        assert(rel.take((ROOT_BASE@ + "/"@).len() as int) =~= ROOT_BASE@ + "/"@);
    } else {
        let h = home(current);
        if h.len() > 0 {
            assert(rel.take((h + "/"@).len() as int) =~= h + "/"@);
        }
        if ends(cur, ".scope"@) {
            lemma_scope_home(current);
            let n = cur.len() as int;
            if begins(rel, cur + "/"@) {
                assert((cur + "/"@)[n] == '/');
                assert(rel.take(n + 1)[n] == rel[n]);
                let c = if h.len() > 0 {
                    name[n - h.len() - 1]
                } else {
                    name[n]
                };
                assert(is_name_char(c));
                lemma_name_char(c);
                assert(false);
            }
        }
    }
}

} // verus!
