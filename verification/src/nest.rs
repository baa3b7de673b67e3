//! How places in a tree of directories lie in one another, by their paths.

use vstd::prelude::*;

use crate::text::begins;

verus! {

/// The path of what is called `name` in the directory `dir`; the topmost
/// directory has an empty path.
pub open spec fn under(dir: Seq<char>, name: Seq<char>) -> Seq<char> {
    if dir.len() == 0 {
        name
    } else {
        dir + "/"@ + name
    }
}

/// Whether `inner` lies somewhere below `outer`.
pub open spec fn is_inside(outer: Seq<char>, inner: Seq<char>) -> bool {
    if outer.len() == 0 {
        inner.len() > 0
    } else {
        begins(inner, outer + "/"@)
    }
}

/// Whether neither of two places is the other or lies below it.
pub open spec fn apart(a: Seq<char>, b: Seq<char>) -> bool {
    a != b && !is_inside(a, b) && !is_inside(b, a)
}

/// Whether a text can be the name of something in a directory.
pub open spec fn is_entry_name(name: Seq<char>) -> bool {
    name.len() > 0 && !name.contains('/')
}

/// What lies below something has a longer path.
pub proof fn lemma_inside_longer(outer: Seq<char>, inner: Seq<char>)
    requires
        is_inside(outer, inner),
    ensures
        outer.len() < inner.len(),
{
    reveal_strlit("/");
}

/// What lies below something lies below all that that lies below.
pub proof fn lemma_inside_transitive(a: Seq<char>, b: Seq<char>, c: Seq<char>)
    requires
        is_inside(a, b),
        is_inside(b, c),
    ensures
        is_inside(a, c),
{
    reveal_strlit("/");
    lemma_inside_longer(a, b);
    lemma_inside_longer(b, c);
    if a.len() > 0 {
        let n = a.len() as int + 1;
        assert(c.take(n) =~= (b + "/"@).take(n)) by {
            assert(c.take(b.len() as int + 1).take(n) =~= c.take(n));
        }
        assert((b + "/"@).take(n) =~= b.take(n));
    }
}

/// What is in a directory lies below it, and below nothing but it and what it
/// lies below itself.
pub proof fn lemma_under(dir: Seq<char>, name: Seq<char>, other: Seq<char>)
    requires
        is_entry_name(name),
    ensures
        is_inside(dir, under(dir, name)),
        is_inside(other, under(dir, name)) ==> other == dir || is_inside(other, dir),
{
    reveal_strlit("/");
    let c = under(dir, name);
    let d = dir.len() as int;
    let t = other.len() as int;
    if d > 0 {
        assert(c.take(d + 1) =~= dir + "/"@);
    }
    if is_inside(other, c) && t > 0 {
        assert((other + "/"@)[t] == '/');
        assert(c.take(t + 1)[t] == c[t]);
        if d == 0 {
            assert(name.contains(c[t]));
        } else if t > d {
            assert(c[t] == name[t - d - 1]);
            assert(name.contains(c[t]));
        } else if t == d {
            assert(other =~= c.take(t + 1).take(t));
            assert(dir =~= c.take(t + 1).take(t));
        } else {
            assert(dir.take(t + 1) =~= c.take(t + 1));
        }
    } else if is_inside(other, c) && d == 0 {
        assert(other =~= dir);
    }
}

/// Two things of different names in one directory are apart.
pub proof fn lemma_under_apart(dir: Seq<char>, a: Seq<char>, b: Seq<char>)
    requires
        is_entry_name(a),
        is_entry_name(b),
        a != b,
    ensures
        apart(under(dir, a), under(dir, b)),
{
    reveal_strlit("/");
    let (x, y) = (under(dir, a), under(dir, b));
    lemma_under(dir, a, y);
    lemma_under(dir, b, x);
    lemma_inside_longer(dir, x);
    lemma_inside_longer(dir, y);
    if is_inside(x, y) {
        if is_inside(x, dir) {
            lemma_inside_longer(x, dir);
        }
    }
    if is_inside(y, x) {
        if is_inside(y, dir) {
            lemma_inside_longer(y, dir);
        }
    }
    if x == y {
        if dir.len() > 0 {
            assert(a =~= x.skip(dir.len() as int + 1));
            assert(b =~= y.skip(dir.len() as int + 1));
        }
    }
}

/// What is in a directory is apart from all that the directory is apart from.
pub proof fn lemma_under_keeps_apart(dir: Seq<char>, name: Seq<char>, other: Seq<char>)
    requires
        is_entry_name(name),
        apart(dir, other),
    ensures
        apart(under(dir, name), other),
{
    let c = under(dir, name);
    lemma_under(dir, name, other);
    if is_inside(c, other) {
        lemma_inside_transitive(dir, c, other);
    }
}

} // verus!
