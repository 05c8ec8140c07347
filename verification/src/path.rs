//! Connectivity across cleared walls: paths on the grid and their basic
//! algebra.

use vstd::prelude::*;
use crate::grid::{Grid, Pos};

verus! {

/// Consecutive cells of the sequence are open to each other.
pub open spec fn is_path(g: Grid, s: Seq<Pos>) -> bool {
    forall|i: int| 0 <= i < s.len() - 1 ==> #[trigger] g.open_between(s[i], s[i + 1])
}

/// Some walk across cleared walls joins `a` to `b`.
pub open spec fn connected(g: Grid, a: Pos, b: Pos) -> bool {
    exists|s: Seq<Pos>| #[trigger] is_path(g, s) && s.len() >= 1 && s[0] == a && s[s.len() - 1] == b
}

/// Openness between two cells does not depend on their order.
pub proof fn lemma_open_sym(g: Grid, a: Pos, b: Pos)
    ensures
        g.open_between(a, b) == g.open_between(b, a),
{
}

/// Every cell is connected to itself.
pub proof fn lemma_connected_refl(g: Grid, a: Pos)
    ensures
        connected(g, a, a),
{
    let s = seq![a];
    assert(is_path(g, s) && s.len() >= 1 && s[0] == a && s[s.len() - 1] == a);
}

/// Cells open to each other are connected.
pub proof fn lemma_connected_adj(g: Grid, a: Pos, b: Pos)
    requires
        g.open_between(a, b),
    ensures
        connected(g, a, b),
{
    let s = seq![a, b];
    assert(g.open_between(s[0], s[1]));
    assert(is_path(g, s) && s.len() >= 1 && s[0] == a && s[s.len() - 1] == b);
}

/// Connectivity runs in both directions: a path reverses.
pub proof fn lemma_connected_sym(g: Grid, a: Pos, b: Pos)
    requires
        connected(g, a, b),
    ensures
        connected(g, b, a),
{
    let s = choose|s: Seq<Pos>| #[trigger] is_path(g, s) && s.len() >= 1 && s[0] == a && s[s.len()
        - 1] == b;
    let n = s.len() as int;
    let r = Seq::new(s.len(), |i: int| s[n - 1 - i]);
    assert forall|i: int| 0 <= i < r.len() - 1 implies #[trigger] g.open_between(r[i], r[i + 1]) by {
        let j = n - 2 - i;
        assert(0 <= j < s.len() - 1);
        assert(g.open_between(s[j], s[j + 1]));
        assert(s[j] == r[i + 1] && s[j + 1] == r[i]);
        lemma_open_sym(g, s[j], s[j + 1]);
    }
    assert(is_path(g, r) && r.len() >= 1 && r[0] == b && r[r.len() - 1] == a);
}

/// Connectivity is transitive: two paths concatenate.
pub proof fn lemma_connected_trans(g: Grid, a: Pos, b: Pos, c: Pos)
    requires
        connected(g, a, b),
        connected(g, b, c),
    ensures
        connected(g, a, c),
{
    let s1 = choose|s: Seq<Pos>| #[trigger] is_path(g, s) && s.len() >= 1 && s[0] == a && s[s.len()
        - 1] == b;
    let s2 = choose|s: Seq<Pos>| #[trigger] is_path(g, s) && s.len() >= 1 && s[0] == b && s[s.len()
        - 1] == c;
    let t = s1 + s2.subrange(1, s2.len() as int);
    let n1 = s1.len() as int;
    assert forall|i: int| 0 <= i < t.len() - 1 implies #[trigger] g.open_between(t[i], t[i + 1]) by {
        if i < n1 - 1 {
            assert(t[i] == s1[i] && t[i + 1] == s1[i + 1]);
            assert(g.open_between(s1[i], s1[i + 1]));
        } else if i == n1 - 1 {
            assert(t[i] == s1[n1 - 1]);
            assert(t[i + 1] == s2[1]);
            assert(g.open_between(s2[0], s2[1]));
        } else {
            assert(t[i] == s2[i - n1 + 1]);
            assert(t[i + 1] == s2[i - n1 + 2]);
            assert(g.open_between(s2[i - n1 + 1], s2[i - n1 + 2]));
        }
    }
    assert(t[0] == s1[0]);
    assert(t.len() - 1 >= n1 - 1);
    if s2.len() == 1 {
        assert(t[t.len() - 1] == s1[n1 - 1]);
        assert(b == c);
    } else {
        assert(t[t.len() - 1] == s2[s2.len() - 1]);
    }
    assert(is_path(g, t) && t.len() >= 1 && t[0] == a && t[t.len() - 1] == c);
}

/// A path survives when walls are only removed, never restored.
pub proof fn lemma_connected_monotone(g1: Grid, g2: Grid, a: Pos, b: Pos)
    requires
        connected(g1, a, b),
        forall|p: Pos, q: Pos| #[trigger] g1.open_between(p, q) ==> g2.open_between(p, q),
    ensures
        connected(g2, a, b),
{
    let s = choose|s: Seq<Pos>| #[trigger] is_path(g1, s) && s.len() >= 1 && s[0] == a && s[s.len()
        - 1] == b;
    assert forall|i: int| 0 <= i < s.len() - 1 implies #[trigger] g2.open_between(s[i], s[i + 1]) by {
        assert(g1.open_between(s[i], s[i + 1]));
    }
    assert(is_path(g2, s) && s.len() >= 1 && s[0] == a && s[s.len() - 1] == b);
}

} // verus!
