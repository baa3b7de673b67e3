//! The order of paths: component by component, each by its characters.

use vstd::prelude::*;

use crate::text::chars;

verus! {

/// Where a character sorts. A slash ends a component, so it sorts before all
/// else.
pub open spec fn rank(c: char) -> int {
    if c == '/' {
        0
    } else {
        c as int + 1
    }
}

/// Whether the path `a` sorts before the path `b`.
pub open spec fn precedes(a: Seq<char>, b: Seq<char>) -> bool
    decreases a.len(),
{
    if b.len() == 0 {
        false
    } else if a.len() == 0 {
        true
    } else if rank(a[0]) == rank(b[0]) {
        precedes(a.skip(1), b.skip(1))
    } else {
        rank(a[0]) < rank(b[0])
    }
}

/// Different characters have different ranks, and but for the slash they rank
/// as they compare.
pub proof fn lemma_rank(x: char, y: char)
    ensures
        rank(x) == rank(y) <==> x == y,
        x != '/' ==> rank(x) > 0,
        y != '/' ==> rank(y) > 0,
        x != '/' && y != '/' ==> (rank(x) < rank(y) <==> x < y),
{
}

/// No path sorts before itself.
pub proof fn lemma_precedes_irreflexive(a: Seq<char>)
    ensures
        !precedes(a, a),
    decreases a.len(),
{
    if a.len() > 0 {
        lemma_precedes_irreflexive(a.skip(1));
    }
}

/// Of two different paths, one sorts before the other.
pub proof fn lemma_precedes_total(a: Seq<char>, b: Seq<char>)
    ensures
        precedes(a, b) || precedes(b, a) || a == b,
    decreases a.len(),
{
    if a.len() > 0 && b.len() > 0 {
        if rank(a[0]) == rank(b[0]) {
            lemma_precedes_total(a.skip(1), b.skip(1));
            if a.skip(1) == b.skip(1) {
                lemma_rank(a[0], b[0]);
                assert(a =~= seq![a[0]] + a.skip(1));
                assert(b =~= seq![b[0]] + b.skip(1));
            }
        }
    } else if a.len() == 0 && b.len() == 0 {
        assert(a =~= b);
    }
}

/// What sorts before something sorts before all that follows that.
pub proof fn lemma_precedes_transitive(a: Seq<char>, b: Seq<char>, c: Seq<char>)
    requires
        precedes(a, b),
        precedes(b, c),
    ensures
        precedes(a, c),
    decreases a.len(),
{
    if a.len() > 0 && rank(a[0]) == rank(b[0]) && rank(b[0]) == rank(c[0]) {
        lemma_precedes_transitive(a.skip(1), b.skip(1), c.skip(1));
    }
}

/// Whether the path `a` sorts before the path `b`.
pub fn sorts_before(a: &str, b: &str) -> (r: bool)
    ensures
        r == precedes(a@, b@),
{
    let xs = chars(a);
    let ys = chars(b);
    let mut i: usize = 0;
    assert(a@.skip(0) =~= a@);
    assert(b@.skip(0) =~= b@);
    while i < xs.len() && i < ys.len()
        invariant
            xs@ == a@,
            ys@ == b@,
            i <= xs.len(),
            i <= ys.len(),
            precedes(a@.skip(i as int), b@.skip(i as int)) == precedes(a@, b@),
        decreases xs.len() - i,
    {
        let x = xs[i];
        let y = ys[i];
        assert(a@.skip(i as int)[0] == x);
        assert(b@.skip(i as int)[0] == y);
        proof {
            lemma_rank(x, y);
        }
        if x != y {
            if x == '/' {
                return true;
            }
            if y == '/' {
                return false;
            }
            return x < y;
        }
        assert(a@.skip(i as int).skip(1) =~= a@.skip(i + 1));
        assert(b@.skip(i as int).skip(1) =~= b@.skip(i + 1));
        i = i + 1;
    }
    i < ys.len()
}

/// Paths that differ sort by the first character in which they do: where one
/// ends or has a slash there, it comes first, and else the lower character
/// decides.
pub proof fn law_path_order(p: Seq<char>, x: char, a: Seq<char>, y: char, b: Seq<char>)
    ensures
        precedes(p, p + seq![x] + a),
        !precedes(p + seq![x] + a, p),
        x != y ==> (precedes(p + seq![x] + a, p + seq![y] + b) <==> x == '/' || (y != '/' && x < y)),
    decreases p.len(),
{
    let s = p + seq![x] + a;
    let t = p + seq![y] + b;
    if p.len() > 0 {
        assert(s[0] == p[0]);
        assert(t[0] == p[0]);
        assert(s.skip(1) =~= p.skip(1) + seq![x] + a);
        assert(t.skip(1) =~= p.skip(1) + seq![y] + b);
        law_path_order(p.skip(1), x, a, y, b);
    } else {
        assert(s[0] == x);
        assert(t[0] == y);
    }
}

} // verus!
