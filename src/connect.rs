//! 8-connectivity of blocked cells.
use vstd::prelude::*;

use crate::geometry::GridPos;
use crate::sight::abs;

verus! {

/// `p` and `q` are distinct 8-neighbours.
pub open spec fn adjacent(p: GridPos, q: GridPos) -> bool {
    p != q && abs(p.0 - q.0) <= 1 && abs(p.1 - q.1) <= 1
}

/// `n` is a corner node contributed by cell `c`: a diagonal neighbour of `c`
/// whose two cells beside the corner and itself are all unblocked.
pub open spec fn is_corner(blocked: Set<GridPos>, c: GridPos, n: GridPos) -> bool {
    &&& abs(n.0 - c.0) == 1
    &&& abs(n.1 - c.1) == 1
    &&& !blocked.contains((n.0, c.1))
    &&& !blocked.contains((c.0, n.1))
    &&& !blocked.contains(n)
}

/// `path` is a non-empty sequence of blocked cells, each an 8-neighbour of the next.
pub open spec fn is_chain(blocked: Set<GridPos>, path: Seq<GridPos>) -> bool {
    &&& path.len() >= 1
    &&& forall|k: int| 0 <= k < path.len() ==> blocked.contains(#[trigger] path[k])
    &&& forall|k: int| 0 <= k < path.len() - 1 ==> adjacent(#[trigger] path[k], path[k + 1])
}

/// `p` and `q` are joined by a chain of 8-adjacent blocked cells.
pub open spec fn connected(blocked: Set<GridPos>, p: GridPos, q: GridPos) -> bool {
    exists|path: Seq<GridPos>| is_chain(blocked, path) && path[0] == p && path.last() == q
}

/// A blocked cell is connected to itself.
pub proof fn lemma_connected_refl(blocked: Set<GridPos>, p: GridPos)
    requires
        blocked.contains(p),
    ensures
        connected(blocked, p, p),
{
    let path = seq![p];
    assert(is_chain(blocked, path));
    assert(path[0] == p && path.last() == p);
}

/// Connected cells are blocked.
pub proof fn lemma_connected_blocked(blocked: Set<GridPos>, p: GridPos, q: GridPos)
    requires
        connected(blocked, p, q),
    ensures
        blocked.contains(p),
        blocked.contains(q),
{
    let path = choose|path: Seq<GridPos>| is_chain(blocked, path) && path[0] == p && path.last() == q;
    assert(blocked.contains(path[0]));
    assert(blocked.contains(path[path.len() - 1]));
}

/// Connectivity is symmetric.
pub proof fn lemma_connected_symm(blocked: Set<GridPos>, p: GridPos, q: GridPos)
    requires
        connected(blocked, p, q),
    ensures
        connected(blocked, q, p),
{
    let path = choose|path: Seq<GridPos>| is_chain(blocked, path) && path[0] == p && path.last() == q;
    let rev = path.reverse();
    assert forall|k: int| 0 <= k < rev.len() - 1 implies adjacent(#[trigger] rev[k], rev[k + 1]) by {
        assert(rev[k] == path[path.len() - 1 - k]);
        assert(rev[k + 1] == path[path.len() - 1 - (k + 1)]);
        assert(adjacent(path[path.len() - 2 - k], path[path.len() - 2 - k + 1]));
    }
    assert forall|k: int| 0 <= k < rev.len() implies blocked.contains(#[trigger] rev[k]) by {
        assert(rev[k] == path[path.len() - 1 - k]);
    }
    assert(is_chain(blocked, rev));
    assert(rev[0] == q);
    assert(rev.last() == p);
}

/// Connectivity is transitive.
pub proof fn lemma_connected_trans(blocked: Set<GridPos>, p: GridPos, q: GridPos, r: GridPos)
    requires
        connected(blocked, p, q),
        connected(blocked, q, r),
    ensures
        connected(blocked, p, r),
{
    let a = choose|path: Seq<GridPos>| is_chain(blocked, path) && path[0] == p && path.last() == q;
    let b = choose|path: Seq<GridPos>| is_chain(blocked, path) && path[0] == q && path.last() == r;
    let c = a + b.subrange(1, b.len() as int);
    assert forall|k: int| 0 <= k < c.len() implies blocked.contains(#[trigger] c[k]) by {
        if k < a.len() {
            assert(c[k] == a[k]);
        } else {
            assert(c[k] == b[k - a.len() + 1]);
        }
    }
    assert forall|k: int| 0 <= k < c.len() - 1 implies adjacent(#[trigger] c[k], c[k + 1]) by {
        if k < a.len() - 1 {
            assert(c[k] == a[k]);
            assert(c[k + 1] == a[k + 1]);
        } else if k == a.len() - 1 {
            assert(c[k] == a[k]);
            assert(c[k + 1] == b[1]);
            assert(adjacent(b[0int], b[0int + 1]));
        } else {
            assert(c[k] == b[k - a.len() + 1]);
            assert(c[k + 1] == b[k - a.len() + 2]);
            assert(adjacent(b[k - a.len() + 1], b[k - a.len() + 1 + 1]));
        }
    }
    assert(is_chain(blocked, c));
    assert(c[0] == p);
    assert(c.last() == r);
}

/// A connected cell stays connected one blocked 8-neighbour further.
pub proof fn lemma_connected_step(blocked: Set<GridPos>, p: GridPos, q: GridPos, r: GridPos)
    requires
        connected(blocked, p, q),
        adjacent(q, r),
        blocked.contains(r),
    ensures
        connected(blocked, p, r),
{
    let path = seq![q, r];
    assert(is_chain(blocked, path)) by {
        assert(blocked.contains(q)) by {
            let a = choose|path: Seq<GridPos>| is_chain(blocked, path) && path[0] == p && path.last() == q;
            assert(blocked.contains(a[a.len() - 1]));
        }
        assert(adjacent(path[0], path[1]));
    }
    assert(path[0] == q && path.last() == r);
    assert(connected(blocked, q, r));
    lemma_connected_trans(blocked, p, q, r);
}

/// A set that holds every blocked 8-neighbour of its members holds every cell
/// connected to one of them.
pub proof fn lemma_closed_set(blocked: Set<GridPos>, s: Set<GridPos>, p: GridPos, q: GridPos)
    requires
        s.contains(p),
        connected(blocked, p, q),
        forall|u: GridPos, v: GridPos|
            #![trigger s.contains(u), adjacent(u, v)]
            s.contains(u) && blocked.contains(v) && adjacent(u, v) ==> s.contains(v),
    ensures
        s.contains(q),
{
    let path = choose|path: Seq<GridPos>| is_chain(blocked, path) && path[0] == p && path.last() == q;
    lemma_closed_prefix(blocked, s, path, path.len() - 1);
}

proof fn lemma_closed_prefix(blocked: Set<GridPos>, s: Set<GridPos>, path: Seq<GridPos>, k: int)
    requires
        is_chain(blocked, path),
        s.contains(path[0]),
        0 <= k < path.len(),
        forall|u: GridPos, v: GridPos|
            #![trigger s.contains(u), adjacent(u, v)]
            s.contains(u) && blocked.contains(v) && adjacent(u, v) ==> s.contains(v),
    ensures
        s.contains(path[k]),
    decreases k,
{
    if k > 0 {
        lemma_closed_prefix(blocked, s, path, k - 1);
        assert(adjacent(path[k - 1], path[k - 1 + 1]));
        assert(blocked.contains(path[k]));
    }
}

} // verus!
