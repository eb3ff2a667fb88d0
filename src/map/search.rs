//! Queries on a precomputed map: snapping endpoints to corner nodes, the
//! successors of the visibility-graph search, the search itself and pruning.
use vstd::prelude::*;

use super::{in_range_exec, key, key_of, lemma_key_injective, DS2Map};
use crate::connect::is_corner;
use crate::geometry::{dist, distance, in_range, same_pos, GridPos};
use crate::sight::sight;

verus! {

/// `nodes[k]` is the first of `nodes` at the least distance from `p`.
pub open spec fn first_nearest(p: GridPos, nodes: Seq<GridPos>, k: int) -> bool {
    &&& 0 <= k < nodes.len()
    &&& forall|m: int| 0 <= m < nodes.len() ==> dist(p, nodes[k]) <= dist(p, #[trigger] nodes[m])
    &&& forall|m: int| 0 <= m < k ==> dist(p, nodes[k]) < dist(p, #[trigger] nodes[m])
}

/// Only one index is the first nearest.
pub proof fn lemma_first_nearest_unique(p: GridPos, nodes: Seq<GridPos>, k1: int, k2: int)
    requires
        first_nearest(p, nodes, k1),
        first_nearest(p, nodes, k2),
    ensures
        k1 == k2,
{
    if k1 < k2 {
        assert(dist(p, nodes[k2]) < dist(p, nodes[k1]));
        assert(dist(p, nodes[k1]) <= dist(p, nodes[k2]));
    } else if k2 < k1 {
        assert(dist(p, nodes[k1]) < dist(p, nodes[k2]));
        assert(dist(p, nodes[k2]) <= dist(p, nodes[k1]));
    }
}

/// The prune pass from cursor `n` on: while `n + 2 < len`, if `path[n]` and
/// `path[n + 2]` are in clear sight the vertex between is dropped and the
/// cursor steps back one place (to recheck the vertex before), else the cursor
/// advances. It ends when no vertex can be dropped.
pub open spec fn prune_from(blocked: Set<GridPos>, path: Seq<GridPos>, n: int) -> Seq<GridPos>
    decreases path.len(), path.len() - n,
{
    if n < 0 || n + 2 >= path.len() {
        path
    } else if sight(blocked, path[n], path[n + 2]) is None {
        prune_from(blocked, path.remove(n + 1), if n > 0 { n - 1 } else { 0 })
    } else {
        prune_from(blocked, path, n + 1)
    }
}

/// `path` after pruning.
pub open spec fn pruned(blocked: Set<GridPos>, path: Seq<GridPos>) -> Seq<GridPos> {
    prune_from(blocked, path, 0)
}

/// Each vertex of `path` has a clear line of sight to the next.
pub open spec fn clear_steps(blocked: Set<GridPos>, path: Seq<GridPos>) -> bool {
    forall|i: int| 0 <= i < path.len() - 1 ==> #[trigger] sight(blocked, path[i], path[i + 1]) is None
}

/// Every interior vertex of `path` is needed: its two neighbours do not see
/// each other.
pub open spec fn all_needed(blocked: Set<GridPos>, path: Seq<GridPos>) -> bool {
    forall|i: int| 1 <= i < path.len() - 1 ==> #[trigger] sight(blocked, path[i - 1], path[i + 1]) is Some
}

/// `a[k] == b[idx[k]]` for each `k`, with `idx` strictly increasing.
pub open spec fn index_map(a: Seq<GridPos>, b: Seq<GridPos>, idx: Seq<int>) -> bool {
    &&& idx.len() == a.len()
    &&& forall|k: int| 0 <= k < a.len() ==> 0 <= #[trigger] idx[k] < b.len() && a[k] == b[idx[k]]
    &&& forall|u: int, v: int| 0 <= u < v < a.len() ==> #[trigger] idx[u] < #[trigger] idx[v]
}

/// `a` is a subsequence of `b`: `b` with some vertices dropped.
pub open spec fn is_subsequence(a: Seq<GridPos>, b: Seq<GridPos>) -> bool {
    exists|idx: Seq<int>| #[trigger] index_map(a, b, idx)
}

proof fn lemma_subsequence_remove_trans(a: Seq<GridPos>, b: Seq<GridPos>, j: int)
    requires
        0 <= j < b.len(),
        is_subsequence(a, b.remove(j)),
    ensures
        is_subsequence(a, b),
{
    let c = b.remove(j);
    let i1 = choose|idx: Seq<int>| #[trigger] index_map(a, c, idx);
    let i2 = Seq::new(c.len(), |k: int| if k < j { k } else { k + 1 });
    assert forall|k: int| 0 <= k < c.len() implies c[k] == b[i2[k]] by {}
    let idx = Seq::new(a.len(), |k: int| i2[i1[k]]);
    assert forall|u: int, v: int| 0 <= u < v < a.len() implies #[trigger] idx[u] < #[trigger] idx[v] by {
        assert(i1[u] < i1[v]);
    }
    assert forall|k: int| 0 <= k < a.len() implies 0 <= #[trigger] idx[k] < b.len() && a[k] == b[idx[k]] by {
        assert(0 <= i1[k] < c.len());
    }
    assert(index_map(a, b, idx));
}

/// Pruning keeps the first and the last vertex, never lengthens the path,
/// and only drops vertices.
pub proof fn lemma_prune_ends(blocked: Set<GridPos>, path: Seq<GridPos>, n: int)
    requires
        path.len() >= 1,
        n >= 0,
    ensures
        prune_from(blocked, path, n).len() >= 1,
        prune_from(blocked, path, n).len() <= path.len(),
        prune_from(blocked, path, n)[0] == path[0],
        prune_from(blocked, path, n).last() == path.last(),
        is_subsequence(prune_from(blocked, path, n), path),
    decreases path.len(), path.len() - n,
{
    if n < 0 || n + 2 >= path.len() {
        let idx = Seq::new(path.len(), |k: int| k);
        assert(index_map(path, path, idx));
    } else if sight(blocked, path[n], path[n + 2]) is None {
        lemma_prune_ends(blocked, path.remove(n + 1), if n > 0 { n - 1 } else { 0 });
        assert(path.remove(n + 1)[0] == path[0]);
        assert(path.remove(n + 1).last() == path.last());
        lemma_subsequence_remove_trans(prune_from(blocked, path, n), path, n + 1);
    } else {
        lemma_prune_ends(blocked, path, n + 1);
    }
}

/// Pruning keeps every step of a path in clear sight.
pub proof fn lemma_prune_keeps_clear(blocked: Set<GridPos>, path: Seq<GridPos>, n: int)
    requires
        clear_steps(blocked, path),
    ensures
        clear_steps(blocked, prune_from(blocked, path, n)),
    decreases path.len(), path.len() - n,
{
    if n < 0 || n + 2 >= path.len() {
    } else if sight(blocked, path[n], path[n + 2]) is None {
        let q = path.remove(n + 1);
        assert forall|i: int| 0 <= i < q.len() - 1 implies #[trigger] sight(blocked, q[i], q[i + 1]) is None by {
            if i < n {
                assert(q[i] == path[i] && q[i + 1] == path[i + 1]);
                assert(sight(blocked, path[i], path[i + 1]) is None);
            } else if i == n {
                assert(q[i] == path[n] && q[i + 1] == path[n + 2]);
            } else {
                assert(q[i] == path[i + 1] && q[i + 1] == path[i + 2]);
                assert(sight(blocked, path[i + 1], path[(i + 1) + 1]) is None);
            }
        }
        lemma_prune_keeps_clear(blocked, q, if n > 0 { n - 1 } else { 0 });
    } else {
        lemma_prune_keeps_clear(blocked, path, n + 1);
    }
}

/// From a cursor `n` behind which every vertex is needed, pruning leaves no
/// vertex that could be dropped.
proof fn lemma_prune_needed(blocked: Set<GridPos>, path: Seq<GridPos>, n: int)
    requires
        n >= 0,
        forall|i: int| 1 <= i <= n && i + 1 < path.len() ==> #[trigger] sight(blocked, path[i - 1], path[i + 1]) is Some,
    ensures
        all_needed(blocked, prune_from(blocked, path, n)),
    decreases path.len(), path.len() - n,
{
    if n + 2 >= path.len() {
        assert forall|i: int| 1 <= i < path.len() - 1 implies #[trigger] sight(blocked, path[i - 1], path[i + 1]) is Some by {}
    } else if sight(blocked, path[n], path[n + 2]) is None {
        let q = path.remove(n + 1);
        let m = if n > 0 { n - 1 } else { 0 };
        assert forall|i: int| 1 <= i <= m && i + 1 < q.len() implies #[trigger] sight(blocked, q[i - 1], q[i + 1]) is Some by {
            assert(q[i - 1] == path[i - 1] && q[i + 1] == path[i + 1]);
        }
        lemma_prune_needed(blocked, q, m);
    } else {
        assert forall|i: int| 1 <= i <= n + 1 && i + 1 < path.len() implies #[trigger] sight(blocked, path[i - 1], path[i + 1]) is Some by {
            if i == n + 1 {
                assert(sight(blocked, path[n], path[n + 2]) is Some);
            }
        }
        lemma_prune_needed(blocked, path, n + 1);
    }
}

/// After pruning, no interior vertex can be dropped: the neighbours of each
/// do not see each other.
pub proof fn lemma_pruned_all_needed(blocked: Set<GridPos>, path: Seq<GridPos>)
    ensures
        all_needed(blocked, pruned(blocked, path)),
{
    lemma_prune_needed(blocked, path, 0);
}

/// Cost estimate from `node` to `goal`: their distance.
fn estimate(node: &GridPos, goal: GridPos) -> (r: usize)
    requires
        in_range(*node),
        in_range(goal),
    ensures
        r == dist(*node, goal),
{
    distance(*node, goal)
}

/// Some index of a non-empty `nodes` is the first nearest to `p`: one among
/// the first `len` is the first nearest among them.
proof fn lemma_nearest_prefix(p: GridPos, nodes: Seq<GridPos>, len: int) -> (k: int)
    requires
        1 <= len <= nodes.len(),
    ensures
        first_nearest(p, nodes.subrange(0, len), k),
    decreases len,
{
    let s = nodes.subrange(0, len);
    if len == 1 {
        0
    } else {
        let k0 = lemma_nearest_prefix(p, nodes, len - 1);
        let s0 = nodes.subrange(0, len - 1);
        assert forall|m: int| 0 <= m < len - 1 implies #[trigger] s0[m] == s[m] by {}
        if dist(p, nodes[len - 1]) < dist(p, nodes[k0]) {
            assert forall|m: int| 0 <= m < s.len() implies dist(p, s[len - 1]) <= dist(p, #[trigger] s[m]) by {
                if m < len - 1 {
                    assert(dist(p, s0[k0]) <= dist(p, s0[m]));
                }
            }
            assert forall|m: int| 0 <= m < len - 1 implies dist(p, s[len - 1]) < dist(p, #[trigger] s[m]) by {
                assert(dist(p, s0[k0]) <= dist(p, s0[m]));
            }
            len - 1
        } else {
            assert forall|m: int| 0 <= m < s.len() implies dist(p, s[k0]) <= dist(p, #[trigger] s[m]) by {
                if m < len - 1 {
                    assert(dist(p, s0[k0]) <= dist(p, s0[m]));
                }
            }
            assert forall|m: int| 0 <= m < k0 implies dist(p, s[k0]) < dist(p, #[trigger] s[m]) by {
                assert(dist(p, s0[k0]) < dist(p, s0[m]));
            }
            k0
        }
    }
}

/// A path whose every interior vertex is needed is left unchanged by pruning.
proof fn lemma_prune_fixpoint(blocked: Set<GridPos>, path: Seq<GridPos>, n: int)
    requires
        0 <= n,
        all_needed(blocked, path),
    ensures
        prune_from(blocked, path, n) == path,
    decreases path.len() - n,
{
    if n + 2 < path.len() {
        assert(sight(blocked, path[(n + 1) - 1], path[(n + 1) + 1]) is Some);
        lemma_prune_fixpoint(blocked, path, n + 1);
    }
}

/// Pruning a pruned path changes nothing.
pub proof fn lemma_prune_idempotent(blocked: Set<GridPos>, path: Seq<GridPos>)
    ensures
        pruned(blocked, pruned(blocked, path)) == pruned(blocked, path),
{
    lemma_pruned_all_needed(blocked, path);
    lemma_prune_fixpoint(blocked, pruned(blocked, path), 0);
}

/// `n` is a corner node of some object of `m`.
spec fn some_node(m: &DS2Map, n: GridPos) -> bool {
    exists|id: nat| #[trigger] m.nodes_of(id).contains(n) && id < m.object_count()
}

/// Sum of the node counts of the objects below `k` that `v` marks.
spec fn visited_total(m: &DS2Map, v: Seq<bool>, k: int) -> int
    decreases k,
{
    if k <= 0 {
        0
    } else {
        visited_total(m, v, k - 1) + if v[k - 1] {
            m.nodes_of((k - 1) as nat).len() as int
        } else {
            0
        }
    }
}

proof fn lemma_node_total_nonneg(m: &DS2Map, k: int)
    ensures
        m.node_total_upto(k) >= 0,
    decreases k,
{
    if k > 0 {
        lemma_node_total_nonneg(m, k - 1);
    }
}

proof fn lemma_visited_total_none(m: &DS2Map, v: Seq<bool>, k: int)
    requires
        k <= v.len(),
        forall|i: int| 0 <= i < v.len() ==> !(#[trigger] v[i]),
    ensures
        visited_total(m, v, k) == 0,
    decreases k,
{
    if k > 0 {
        lemma_visited_total_none(m, v, k - 1);
    }
}

proof fn lemma_visited_total_set(m: &DS2Map, v: Seq<bool>, o: int, k: int)
    requires
        0 <= o < v.len(),
        k <= v.len(),
        !v[o],
    ensures
        visited_total(m, v.update(o, true), k) == visited_total(m, v, k) + if o < k {
            m.nodes_of(o as nat).len() as int
        } else {
            0
        },
    decreases k,
{
    if k > 0 {
        lemma_visited_total_set(m, v, o, k - 1);
    }
}

proof fn lemma_visited_total_bound(m: &DS2Map, v: Seq<bool>, k: int)
    requires
        k <= v.len(),
    ensures
        visited_total(m, v, k) <= m.node_total_upto(k),
    decreases k,
{
    if k > 0 {
        lemma_visited_total_bound(m, v, k - 1);
    }
}

/// Every point of `s` is in `q`.
spec fn covers(q: Seq<GridPos>, s: Seq<GridPos>) -> bool {
    forall|n: GridPos| #[trigger] s.contains(n) ==> q.contains(n)
}

/// Every point of `q` is in range and a corner node of some object.
spec fn all_nodes(m: &DS2Map, q: Seq<GridPos>) -> bool {
    forall|t: int| 0 <= t < q.len() ==> in_range(#[trigger] q[t]) && some_node(m, q[t])
}

impl DS2Map {
    /// Where a query endpoint `p` is placed: a blocked cell with an object of
    /// the index moves to the first nearest corner node of that object; any
    /// other point, or a cell whose object has no corner node, stays.
    pub open spec fn snapped(&self, p: GridPos) -> GridPos {
        if self.object_ids().contains_key(p) && self.nodes_of(self.object_ids()[p]).len() > 0 {
            let nodes = self.nodes_of(self.object_ids()[p]);
            nodes[choose|k: int| first_nearest(p, nodes, k)]
        } else {
            p
        }
    }

    /// Seen from `node`, the line of sight to `m` is stopped by a cell of an
    /// object of which `n` is a corner node.
    pub open spec fn hides(&self, node: GridPos, m: GridPos, n: GridPos) -> bool {
        match sight(self.blocked(), node, m) {
            Some(c) => self.object_ids().contains_key(c) && self.nodes_of(self.object_ids()[c]).contains(n),
            None => false,
        }
    }

    /// `chain` leads, seen from `node`, from a corner node of object `first`
    /// through hidden nodes: each node after the first is a corner node of an
    /// object that stops the line of sight to the node before it.
    pub open spec fn hidden_chain(&self, node: GridPos, first: nat, chain: Seq<GridPos>) -> bool {
        &&& chain.len() >= 1
        &&& self.nodes_of(first).contains(chain[0])
        &&& forall|i: int| 0 <= i < chain.len() - 1 ==> #[trigger] self.hides(node, chain[i], chain[i + 1])
    }

    /// `n` is a candidate of the expansion that starts from object `first`,
    /// seen from `node`: the end of some hidden chain.
    pub open spec fn candidate(&self, node: GridPos, first: nat, n: GridPos) -> bool {
        exists|chain: Seq<GridPos>| #[trigger] self.hidden_chain(node, first, chain) && chain.last() == n
    }

    /// `b` follows `a` in the search towards `goal`: if `goal` is in clear
    /// sight of `a`, `b` is `goal`; else `b` is a candidate, in clear sight of
    /// `a`, of the expansion from the object of the cell that stops the sight.
    pub open spec fn search_step(&self, goal: GridPos, a: GridPos, b: GridPos) -> bool {
        match sight(self.blocked(), a, goal) {
            None => b == goal,
            Some(c) => {
                &&& self.object_ids().contains_key(c)
                &&& self.candidate(a, self.object_ids()[c], b)
                &&& sight(self.blocked(), a, b) is None
            },
        }
    }

    /// Sum of the node counts of the objects below `k`.
    pub open spec fn node_total_upto(&self, k: int) -> int
        decreases k,
    {
        if k <= 0 {
            0
        } else {
            self.node_total_upto(k - 1) + self.nodes_of((k - 1) as nat).len()
        }
    }

    /// Number of corner nodes over all objects, counted per object.
    pub open spec fn node_total(&self) -> int {
        self.node_total_upto(self.object_count() as int)
    }

    /// A node of object `first` is a candidate.
    pub proof fn lemma_candidate_start(&self, node: GridPos, first: nat, n: GridPos)
        requires
            self.nodes_of(first).contains(n),
        ensures
            self.candidate(node, first, n),
    {
        let chain = seq![n];
        assert(self.hidden_chain(node, first, chain));
        assert(chain.last() == n);
    }

    /// A node hidden behind a candidate is a candidate.
    pub proof fn lemma_candidate_extend(&self, node: GridPos, first: nat, m: GridPos, n: GridPos)
        requires
            self.candidate(node, first, m),
            self.hides(node, m, n),
        ensures
            self.candidate(node, first, n),
    {
        let chain = choose|chain: Seq<GridPos>| #[trigger] self.hidden_chain(node, first, chain) && chain.last() == m;
        let longer = chain.push(n);
        assert forall|i: int| 0 <= i < longer.len() - 1 implies #[trigger] self.hides(node, longer[i], longer[i + 1]) by {
            if i < chain.len() - 1 {
                assert(longer[i] == chain[i] && longer[i + 1] == chain[i + 1]);
            } else {
                assert(longer[i] == m && longer[i + 1] == n);
            }
        }
        assert(self.hidden_chain(node, first, longer));
        assert(longer.last() == n);
    }

    /// A list holding the nodes of `first` and every node hidden behind one
    /// of its members holds every candidate.
    pub proof fn lemma_closed_holds_candidates(&self, node: GridPos, first: nat, cand: Seq<GridPos>, n: GridPos)
        requires
            forall|x: GridPos| #[trigger] self.nodes_of(first).contains(x) ==> cand.contains(x),
            forall|m: GridPos, x: GridPos|
                #![trigger cand.contains(m), self.hides(node, m, x)]
                cand.contains(m) && self.hides(node, m, x) ==> cand.contains(x),
            self.candidate(node, first, n),
        ensures
            cand.contains(n),
    {
        let chain = choose|chain: Seq<GridPos>| #[trigger] self.hidden_chain(node, first, chain) && chain.last() == n;
        self.lemma_chain_prefix_held(node, first, cand, chain, chain.len() - 1);
    }

    proof fn lemma_chain_prefix_held(&self, node: GridPos, first: nat, cand: Seq<GridPos>, chain: Seq<GridPos>, k: int)
        requires
            forall|x: GridPos| #[trigger] self.nodes_of(first).contains(x) ==> cand.contains(x),
            forall|m: GridPos, x: GridPos|
                #![trigger cand.contains(m), self.hides(node, m, x)]
                cand.contains(m) && self.hides(node, m, x) ==> cand.contains(x),
            self.hidden_chain(node, first, chain),
            0 <= k < chain.len(),
        ensures
            cand.contains(chain[k]),
        decreases k,
    {
        if k > 0 {
            self.lemma_chain_prefix_held(node, first, cand, chain, k - 1);
            assert(self.hides(node, chain[k - 1], chain[(k - 1) + 1]));
        }
    }

    /// `path` is a walk of the search from `start` to `goal`: it starts at
    /// `start`, ends at `goal`, and each vertex may follow the one before it.
    pub open spec fn search_path(&self, start: GridPos, goal: GridPos, path: Seq<GridPos>) -> bool {
        &&& path.len() >= 1
        &&& path[0] == start
        &&& path.last() == goal
        &&& forall|i: int| 0 <= i < path.len() - 1 ==> #[trigger] self.search_step(goal, path[i], path[i + 1])
    }

    /// The object id that the index records for `p`, if any.
    fn object_id(&self, p: GridPos) -> (r: Option<usize>)
        requires
            self.wf(),
        ensures
            r is None <==> !self.object_ids().contains_key(p),
            r matches Some(id) ==> id == self.object_ids()[p] && (id as nat) < self.object_count(),
    {
        if !in_range_exec(p) {
            return None;
        }
        match self.cell_ids.get(&key(p)) {
            Some(id) => Some(*id),
            None => None,
        }
    }

    /// The corner nodes of the object that holds the cell `p`, if the index
    /// records one.
    pub fn object_nodes(&self, p: GridPos) -> (r: Option<&Vec<GridPos>>)
        requires
            self.wf(),
        ensures
            r is None <==> !self.object_ids().contains_key(p),
            r matches Some(v) ==> v@ == self.nodes_of(self.object_ids()[p]),
    {
        match self.object_id(p) {
            Some(id) => Some(&self.object_nodes[id]),
            None => None,
        }
    }

    /// Whether `(x, z)` is a corner node of some object.
    pub fn is_node(&self, x: isize, z: isize) -> (r: bool)
        requires
            self.wf(),
        ensures
            r <==> exists|id: nat| #[trigger] self.nodes_of(id).contains((x, z)) && id < self.object_count(),
    {
        let mut id: usize = 0;
        while id < self.object_nodes.len()
            invariant
                0 <= id <= self.object_nodes@.len(),
                forall|i: nat| i < id ==> !(#[trigger] self.nodes_of(i)).contains((x, z)),
            decreases self.object_nodes@.len() - id,
        {
            let nodes = &self.object_nodes[id];
            let mut j: usize = 0;
            while j < nodes.len()
                invariant
                    0 <= j <= nodes@.len(),
                    id < self.object_nodes@.len(),
                    nodes@ == self.nodes_of(id as nat),
                    forall|k: int| 0 <= k < j ==> nodes@[k] != (x, z),
                decreases nodes@.len() - j,
            {
                if same_pos(nodes[j], (x, z)) {
                    proof {
                        assert(nodes@[j as int] == (x, z));
                        assert(self.nodes_of(id as nat).contains((x, z)));
                        assert((id as nat) < self.object_count());
                    }
                    return true;
                }
                j = j + 1;
            }
            proof {
                assert(!self.nodes_of(id as nat).contains((x, z)));
            }
            id = id + 1;
        }
        false
    }

    /// The endpoint a query starts or ends at instead of `p`: `p` itself
    /// unless it is a blocked cell of an object with corner nodes, in which
    /// case the first of them nearest to `p`.
    pub fn closest_unblocked_cell(&self, p: GridPos) -> (r: GridPos)
        requires
            self.wf(),
            in_range(p),
        ensures
            r == self.snapped(p),
            in_range(r),
    {
        match self.object_id(p) {
            None => p,
            Some(id) => {
                let nodes = &self.object_nodes[id];
                proof {
                    self.lemma_index_bounds();
                }
                if nodes.len() == 0 {
                    return p;
                }
                let mut best: usize = 0;
                let mut best_d: usize = distance(p, nodes[0]);
                let mut j: usize = 1;
                while j < nodes.len()
                    invariant
                        1 <= j <= nodes@.len(),
                        nodes@ == self.nodes_of(id as nat),
                        (id as nat) < self.object_count(),
                        forall|k: int| 0 <= k < nodes@.len() ==> in_range(#[trigger] nodes@[k]),
                        in_range(p),
                        0 <= best < j,
                        best_d == dist(p, nodes@[best as int]),
                        forall|m: int| 0 <= m < j ==> dist(p, nodes@[best as int]) <= dist(p, #[trigger] nodes@[m]),
                        forall|m: int| 0 <= m < best ==> dist(p, nodes@[best as int]) < dist(p, #[trigger] nodes@[m]),
                    decreases nodes@.len() - j,
                {
                    let d = distance(p, nodes[j]);
                    if d < best_d {
                        best = j;
                        best_d = d;
                    }
                    j = j + 1;
                }
                proof {
                    let ns = self.nodes_of(id as nat);
                    assert(first_nearest(p, ns, best as int));
                    let k = choose|k: int| first_nearest(p, ns, k);
                    lemma_first_nearest_unique(p, ns, k, best as int);
                }
                nodes[best]
            }
        }
    }

    /// The corner nodes in clear sight of `node` when its line of sight is
    /// stopped by `cell`, each with its distance from `node`.
    ///
    /// The nodes of `cell`'s object are tried first; a node hidden behind
    /// another object brings that object's nodes in as further candidates,
    /// each object at most once.
    #[verifier::rlimit(100)]
    #[verifier::spinoff_prover]
    pub fn get_visible_object_nodes(&self, node: GridPos, cell: GridPos) -> (r: Vec<(GridPos, usize)>)
        requires
            self.wf(),
            in_range(node),
        ensures
            forall|k: int|
                0 <= k < r@.len() ==> {
                    &&& (#[trigger] r@[k]).1 == dist(node, r@[k].0)
                    &&& sight(self.blocked(), node, r@[k].0) is None
                    &&& exists|id: nat| #[trigger] self.nodes_of(id).contains(r@[k].0) && id < self.object_count()
                },
            !self.object_ids().contains_key(cell) ==> r@.len() == 0,
            self.object_ids().contains_key(cell) ==> forall|n: GridPos|
                #[trigger] self.nodes_of(self.object_ids()[cell]).contains(n) && sight(self.blocked(), node, n) is None
                    ==> exists|k: int| 0 <= k < r@.len() && (#[trigger] r@[k]).0 == n,
            self.object_ids().contains_key(cell) ==> forall|n: GridPos|
                (exists|k: int| 0 <= k < r@.len() && (#[trigger] r@[k]).0 == n) <==> (#[trigger] self.candidate(
                    node,
                    self.object_ids()[cell],
                    n,
                ) && sight(self.blocked(), node, n) is None),
            r@.len() <= self.node_total(),
    {
        let mut out: Vec<(GridPos, usize)> = Vec::new();
        let first = match self.object_id(cell) {
            None => {
                proof {
                    lemma_node_total_nonneg(self, self.object_count() as int);
                }
                return out;
            },
            Some(id) => id,
        };
        proof {
            self.lemma_index_bounds();
        }
        let count = self.object_nodes.len();
        let mut visited: Vec<bool> = Vec::new();
        while visited.len() < count
            invariant
                visited@.len() <= count,
                forall|i: int| 0 <= i < visited@.len() ==> !(#[trigger] visited@[i]),
            decreases count - visited@.len(),
        {
            visited.push(false);
        }
        let ghost unvisited = visited@;
        visited.set(first, true);
        let ghost mut vis: Set<int> = Set::empty().insert(first as int);
        let mut queue: Vec<GridPos> = Vec::new();
        let first_nodes = &self.object_nodes[first];
        let mut j: usize = 0;
        while j < first_nodes.len()
            invariant
                0 <= j <= first_nodes@.len(),
                first_nodes@ == self.nodes_of(first as nat),
                queue@ == first_nodes@.subrange(0, j as int),
            decreases first_nodes@.len() - j,
        {
            queue.push(first_nodes[j]);
            j = j + 1;
        }
        let ghost len0 = queue@.len();
        assert(queue@ == self.nodes_of(first as nat));
        let mut head: usize = 0;
        proof {
            vstd::set_lib::lemma_int_range(0, count as int);
            assert forall|t: int| 0 <= t < queue@.len() implies in_range(#[trigger] queue@[t]) && some_node(self, queue@[t]) by {
                assert(self.nodes_of(first as nat).contains(queue@[t]));
            }
            assert(queue@.subrange(0, len0 as int) =~= queue@);
            assert(all_nodes(self, queue@));
            assert forall|i: int| 0 <= i < count && #[trigger] visited@[i] implies covers(queue@, self.nodes_of(i as nat)) by {
                assert(vis.contains(i));
            }
            assert forall|t: int| 0 <= t < queue@.len() implies self.candidate(node, first as nat, #[trigger] queue@[t]) by {
                self.lemma_candidate_start(node, first as nat, queue@[t]);
            }
            lemma_visited_total_none(self, unvisited, count as int);
            lemma_visited_total_set(self, unvisited, first as int, count as int);
            assert(visited@ == unvisited.update(first as int, true));
        }
        while head < queue.len()
            invariant
                self.wf(),
                in_range(node),
                count == self.object_nodes@.len(),
                (first as nat) < self.object_count(),
                first as nat == self.object_ids()[cell],
                self.object_ids().contains_key(cell),
                visited@.len() == count,
                forall|i: int| 0 <= i < count ==> (#[trigger] visited@[i] <==> vis.contains(i)),
                vis.subset_of(vstd::set_lib::set_int_range(0, count as int)),
                vstd::set_lib::set_int_range(0, count as int).finite(),
                vstd::set_lib::set_int_range(0, count as int).len() == count,
                vis.finite(),
                0 <= head <= queue@.len(),
                len0 <= queue@.len(),
                queue@.subrange(0, len0 as int) == self.nodes_of(first as nat),
                all_nodes(self, queue@),
                forall|k: int|
                    0 <= k < out@.len() ==> {
                        &&& (#[trigger] out@[k]).1 == dist(node, out@[k].0)
                        &&& sight(self.blocked(), node, out@[k].0) is None
                        &&& exists|id: nat| #[trigger] self.nodes_of(id).contains(out@[k].0) && id < self.object_count()
                    },
                forall|t: int|
                    0 <= t < head && sight(self.blocked(), node, #[trigger] queue@[t]) is None ==> exists|k: int|
                        0 <= k < out@.len() && (#[trigger] out@[k]).0 == queue@[t],
                vis.contains(first as int),
                forall|i: int| 0 <= i < count && #[trigger] visited@[i] ==> covers(queue@, self.nodes_of(i as nat)),
                forall|t: int, n: GridPos|
                    #![trigger queue@[t], self.hides(node, queue@[t], n)]
                    0 <= t < head && self.hides(node, queue@[t], n) ==> queue@.contains(n),
                forall|t: int| 0 <= t < queue@.len() ==> self.candidate(node, first as nat, #[trigger] queue@[t]),
                queue@.len() == visited_total(self, visited@, count as int),
                out@.len() <= head,
                forall|k: int| 0 <= k < out@.len() ==> queue@.contains((#[trigger] out@[k]).0),
            decreases count - vis.len(), queue@.len() - head,
        {
            proof {
                vstd::set_lib::lemma_len_subset(vis, vstd::set_lib::set_int_range(0, count as int));
            }
            let n = queue[head];
            let ghost q_before = queue@;
            let ghost out_before = out@;
            match self.compute_visibility(node, n) {
                None => {
                    let d = distance(node, n);
                    out.push((n, d));
                    proof {
                        assert(out@[out@.len() - 1] == (n, d));
                        assert forall|t: int|
                            0 <= t < head + 1 && sight(self.blocked(), node, #[trigger] queue@[t]) is None implies exists|k: int|
                                0 <= k < out@.len() && (#[trigger] out@[k]).0 == queue@[t] by {
                            if t < head {
                                let k = choose|k: int| 0 <= k < out_before.len() && (#[trigger] out_before[k]).0 == queue@[t];
                                assert(out@[k] == out_before[k]);
                            } else {
                                assert(out@[out@.len() - 1].0 == queue@[t]);
                            }
                        }
                        assert forall|k: int| 0 <= k < out@.len() implies {
                            &&& (#[trigger] out@[k]).1 == dist(node, out@[k].0)
                            &&& sight(self.blocked(), node, out@[k].0) is None
                            &&& exists|id: nat| #[trigger] self.nodes_of(id).contains(out@[k].0) && id < self.object_count()
                        } by {
                            if k < out_before.len() {
                                assert(out@[k] == out_before[k]);
                            } else {
                                assert(queue@[head as int] == n);
                                assert(some_node(self, n));
                            }
                        }
                        assert forall|k: int| 0 <= k < out@.len() implies queue@.contains((#[trigger] out@[k]).0) by {
                            if k < out_before.len() {
                                assert(out@[k] == out_before[k]);
                            } else {
                                assert(queue@[head as int] == n);
                            }
                        }
                    }
                },
                Some(c) => {
                    match self.object_id(c) {
                        Some(oid) => {
                            if !visited[oid] {
                                let ghost old_vis = vis;
                                let ghost old_visited = visited@;
                                visited.set(oid, true);
                                proof {
                                    assert(!old_vis.contains(oid as int));
                                    vis = vis.insert(oid as int);
                                    assert(vis.len() == old_vis.len() + 1);
                                    vstd::set_lib::lemma_len_subset(vis, vstd::set_lib::set_int_range(0, count as int));
                                    assert forall|i: int| 0 <= i < count implies (#[trigger] visited@[i] <==> vis.contains(i)) by {}
                                }
                                let more = &self.object_nodes[oid];
                                let mut m: usize = 0;
                                while m < more.len()
                                    invariant
                                        0 <= m <= more@.len(),
                                        more@ == self.nodes_of(oid as nat),
                                        (oid as nat) < self.object_count(),
                                        self.wf(),
                                        queue@ == q_before + more@.subrange(0, m as int),
                                    decreases more@.len() - m,
                                {
                                    queue.push(more[m]);
                                    m = m + 1;
                                }
                                proof {
                                    self.lemma_index_bounds();
                                    assert(all_nodes(self, q_before));
                                    assert forall|t: int| 0 <= t < queue@.len() implies in_range(#[trigger] queue@[t]) && some_node(self, queue@[t]) by {
                                        if t < q_before.len() {
                                            assert(queue@[t] == q_before[t]);
                                        } else {
                                            assert(queue@[t] == more@[t - q_before.len()]);
                                            assert(self.nodes_of(oid as nat).contains(queue@[t]));
                                            assert(in_range(self.nodes_of(oid as nat)[t - q_before.len()]));
                                        }
                                    }
                                    assert(all_nodes(self, queue@));
                                    assert(queue@.subrange(0, len0 as int) =~= q_before.subrange(0, len0 as int));
                                    assert forall|t: int| 0 <= t < head + 1 implies #[trigger] queue@[t] == q_before[t] by {}
                                    assert(more@.subrange(0, more@.len() as int) =~= more@);
                                    assert forall|x: GridPos| #[trigger] q_before.contains(x) implies queue@.contains(x) by {
                                        let t = choose|t: int| 0 <= t < q_before.len() && q_before[t] == x;
                                        assert(queue@[t] == x);
                                    }
                                    assert forall|x: GridPos| #[trigger] more@.contains(x) implies queue@.contains(x) by {
                                        let t = choose|t: int| 0 <= t < more@.len() && more@[t] == x;
                                        assert(queue@[q_before.len() + t] == x);
                                    }
                                    assert(self.object_ids()[c] == oid as nat);
                                    assert forall|x: GridPos| #[trigger] queue@.contains(x) implies q_before.contains(x) || more@.contains(x) by {
                                        let t = choose|t: int| 0 <= t < queue@.len() && queue@[t] == x;
                                        if t < q_before.len() {
                                            assert(q_before[t] == x);
                                        } else {
                                            assert(more@[t - q_before.len()] == x);
                                        }
                                    }
                                    assert(q_before.contains(n)) by {
                                        assert(q_before[head as int] == n);
                                    }
                                    assert forall|x: GridPos| #[trigger] more@.contains(x) implies self.hides(node, n, x) by {}
                                    assert(self.candidate(node, first as nat, q_before[head as int]));
                                    assert forall|t: int| 0 <= t < queue@.len() implies self.candidate(node, first as nat, #[trigger] queue@[t]) by {
                                        if t < q_before.len() {
                                            assert(queue@[t] == q_before[t]);
                                        } else {
                                            let x = more@[t - q_before.len()];
                                            assert(queue@[t] == x);
                                            assert(more@.contains(x));
                                            self.lemma_candidate_extend(node, first as nat, n, x);
                                        }
                                    }
                                    lemma_visited_total_set(self, old_visited, oid as int, count as int);
                                    assert(visited@ == old_visited.update(oid as int, true));
                                }
                            }
                        },
                        None => {},
                    }
                },
            }
            head = head + 1;
        }
        proof {
            let cand = queue@;
            let first_set = self.nodes_of(first as nat);
            assert(visited@[first as int]);
            assert forall|m: GridPos, n: GridPos|
                #![trigger cand.contains(m), self.hides(node, m, n)]
                cand.contains(m) && self.hides(node, m, n) implies cand.contains(n) by {
                let t = choose|t: int| 0 <= t < cand.len() && cand[t] == m;
                assert(self.hides(node, queue@[t], n));
            }
            assert(covers(queue@, first_set));
            lemma_visited_total_bound(self, visited@, count as int);
            assert forall|n: GridPos|
                (exists|k: int| 0 <= k < out@.len() && (#[trigger] out@[k]).0 == n) <==> (#[trigger] self.candidate(
                    node,
                    first as nat,
                    n,
                ) && sight(self.blocked(), node, n) is None) by {
                if exists|k: int| 0 <= k < out@.len() && (#[trigger] out@[k]).0 == n {
                    let k = choose|k: int| 0 <= k < out@.len() && (#[trigger] out@[k]).0 == n;
                    assert(queue@.contains(out@[k].0));
                    let t = choose|t: int| 0 <= t < queue@.len() && queue@[t] == n;
                    assert(self.candidate(node, first as nat, queue@[t]));
                }
                if self.candidate(node, first as nat, n) && sight(self.blocked(), node, n) is None {
                    self.lemma_closed_holds_candidates(node, first as nat, cand, n);
                    let t = choose|t: int| 0 <= t < queue@.len() && queue@[t] == n;
                    assert(sight(self.blocked(), node, queue@[t]) is None);
                }
            }
            assert forall|n: GridPos|
                #[trigger] first_set.contains(n) && sight(self.blocked(), node, n) is None implies exists|k: int|
                    0 <= k < out@.len() && (#[trigger] out@[k]).0 == n by {
                let t = choose|t: int| 0 <= t < first_set.len() && first_set[t] == n;
                assert(queue@.subrange(0, len0 as int)[t] == queue@[t]);
            }
        }
        out
    }

    /// Drops vertices whose neighbours see each other until none is left:
    /// with a cursor `n` from 0, while `n + 2 < len`, `path[n + 1]` is removed
    /// when `path[n]` and `path[n + 2]` are in clear sight and the cursor
    /// steps back one place, else the cursor advances.
    pub fn prune(&self, path: &mut Vec<GridPos>)
        requires
            self.wf(),
        ensures
            final(path)@ == pruned(self.blocked(), old(path)@),
            old(path)@.len() >= 1 ==> final(path)@.len() >= 1 && final(path)@[0] == old(path)@[0]
                && final(path)@.last() == old(path)@.last(),
            is_subsequence(final(path)@, old(path)@),
            clear_steps(self.blocked(), old(path)@) ==> clear_steps(self.blocked(), final(path)@),
            all_needed(self.blocked(), final(path)@),
    {
        let ghost orig = path@;
        let mut n: usize = 0;
        while path.len() > 2 && n < path.len() - 2
            invariant
                self.wf(),
                pruned(self.blocked(), orig) == prune_from(self.blocked(), path@, n as int),
            decreases path@.len(), path@.len() - n,
        {
            if self.compute_visibility(path[n], path[n + 2]).is_none() {
                path.remove(n + 1);
                if n > 0 {
                    n = n - 1;
                }
            } else {
                n = n + 1;
            }
        }
        proof {
            lemma_pruned_all_needed(self.blocked(), orig);
            if orig.len() >= 1 {
                lemma_prune_ends(self.blocked(), orig, 0);
            } else {
                assert(index_map(orig, orig, Seq::<int>::empty()));
            }
            if clear_steps(self.blocked(), orig) {
                lemma_prune_keeps_clear(self.blocked(), orig, 0);
            }
        }
    }

    /// The successors of `node` in the search towards `goal`, with their
    /// costs: `goal` alone when it is in clear sight, else the corner nodes in
    /// clear sight behind the cell that stops the line of sight.
    fn successors(&self, node: &GridPos, goal: GridPos) -> (r: Vec<(GridPos, usize)>)
        requires
            self.wf(),
            in_range(*node),
            in_range(goal),
        ensures
            forall|b: GridPos|
                (exists|k: int| 0 <= k < r@.len() && (#[trigger] r@[k]).0 == b) <==> #[trigger] self.search_step(
                    goal,
                    *node,
                    b,
                ),
            forall|k: int|
                0 <= k < r@.len() ==> {
                    &&& (#[trigger] r@[k]).1 == dist(*node, r@[k].0)
                    &&& in_range(r@[k].0)
                },
            sight(self.blocked(), *node, goal) is None ==> r@ == seq![(goal, dist(*node, goal) as usize)],
    {
        match self.compute_visibility(*node, goal) {
            None => {
                let r = vec![(goal, distance(*node, goal))];
                assert(r@ =~= seq![(goal, dist(*node, goal) as usize)]);
                assert forall|b: GridPos|
                    (exists|k: int| 0 <= k < r@.len() && (#[trigger] r@[k]).0 == b) <==> #[trigger] self.search_step(goal, *node, b) by {
                    if b == goal {
                        assert(r@[0].0 == b);
                    }
                }
                r
            },
            Some(c) => {
                let r = self.get_visible_object_nodes(*node, c);
                proof {
                    self.lemma_index_bounds();
                    assert forall|k: int| 0 <= k < r@.len() implies in_range((#[trigger] r@[k]).0) by {
                        let id = choose|id: nat| #[trigger] self.nodes_of(id).contains(r@[k].0) && id < self.object_count();
                        let j = choose|j: int| 0 <= j < self.nodes_of(id).len() && self.nodes_of(id)[j] == r@[k].0;
                    }
                    assert forall|b: GridPos|
                        (exists|k: int| 0 <= k < r@.len() && (#[trigger] r@[k]).0 == b) <==> #[trigger] self.search_step(goal, *node, b) by {
                        if self.object_ids().contains_key(c) {
                            if self.candidate(*node, self.object_ids()[c], b) {
                            }
                        }
                    }
                }
                r
            },
        }
    }

    /// Runs the visibility-graph search from `start` to `goal`.
    ///
    /// Relies on `pathfinding::directed::astar::astar`:
    /// - a `start` that `success` accepts is returned as the one-vertex path;
    /// - a returned path begins at `start`, ends at a node that `success`
    ///   accepts (here: `goal`), and each vertex after the first is one that
    ///   `successors` returned for the vertex before it, so it is a
    ///   `search_step` by `successors`'s verified postcondition; its vertices
    ///   are distinct entries of the search's parent map;
    /// - every node that `successors` returns is put on the heap and tested
    ///   with `success` when taken off it, and the search only gives up when
    ///   the heap is empty, so `None` means that no chain of `search_step`s
    ///   leads from `start` to `goal`.
    ///
    /// Edge costs are below 2^32, so path costs do not overflow.
    #[verifier::external_body]
    fn astar_search(&self, start: GridPos, goal: GridPos) -> (r: Option<Vec<GridPos>>)
        requires
            self.wf(),
            in_range(start),
            in_range(goal),
        ensures
            start == goal ==> r is Some && r.unwrap()@ == seq![start],
            r is Some ==> self.search_path(start, goal, r.unwrap()@) && r.unwrap()@.no_duplicates(),
            r is None ==> forall|path: Seq<GridPos>| !#[trigger] self.search_path(start, goal, path),
    {
        pathfinding::directed::astar::astar(
            &start,
            |n| self.successors(n, goal),
            |n| estimate(n, goal),
            |n| same_pos(*n, goal),
        ).map(|found| found.0)
    }

    /// A short obstacle-free path from `start` to `end`.
    ///
    /// Both endpoints are first snapped (see `closest_unblocked_cell`); the
    /// visibility graph is searched between them, and the path found is
    /// pruned. `None` when the search finds no path.
    pub fn find_path(&self, start: GridPos, end: GridPos) -> (r: Option<Vec<GridPos>>)
        requires
            self.wf(),
            in_range(start),
            in_range(end),
        ensures
            self.snapped(start) == self.snapped(end) ==> (r matches Some(p) && p@ == seq![self.snapped(start)]),
            r is None <==> !exists|raw: Seq<GridPos>| #[trigger]
                self.search_path(self.snapped(start), self.snapped(end), raw),
            self.snapped(start) != self.snapped(end) && sight(self.blocked(), self.snapped(start), self.snapped(end)) is None
                ==> (r matches Some(p) && p@ == seq![self.snapped(start), self.snapped(end)]),
            r matches Some(p) ==> {
                &&& p@.len() >= 1
                &&& p@[0] == self.snapped(start)
                &&& p@.last() == self.snapped(end)
                &&& clear_steps(self.blocked(), p@)
                &&& all_needed(self.blocked(), p@)
                &&& exists|raw: Seq<GridPos>| #[trigger]
                    self.search_path(self.snapped(start), self.snapped(end), raw) && raw.no_duplicates() && p@
                        == pruned(self.blocked(), raw)
            },
    {
        let s = self.closest_unblocked_cell(start);
        let e = self.closest_unblocked_cell(end);
        match self.astar_search(s, e) {
            None => {
                proof {
                    if s != e && sight(self.blocked(), s, e) is None {
                        let two = seq![s, e];
                        assert(self.search_step(e, two[0int], two[0int + 1]));
                        assert(self.search_path(s, e, two));
                    }
                }
                None
            },
            Some(path) => {
                let ghost raw = path@;
                let mut path = path;
                self.prune(&mut path);
                proof {
                    lemma_prune_ends(self.blocked(), raw, 0);
                    assert forall|i: int| 0 <= i < raw.len() - 1 implies #[trigger] sight(self.blocked(), raw[i], raw[i + 1]) is None by {
                        assert(self.search_step(e, raw[i], raw[i + 1]));
                    }
                    lemma_prune_keeps_clear(self.blocked(), raw, 0);
                    if s == e {
                        assert(raw =~= seq![s]);
                        assert(path@ =~= seq![s]);
                    }
                    if s != e && sight(self.blocked(), s, e) is None {
                        assert(raw.len() >= 2);
                        assert(self.search_step(e, raw[0int], raw[0int + 1]));
                        assert(raw[1] == e);
                        if raw.len() > 2 {
                            assert(raw[1] == raw[raw.len() - 1]);
                        }
                        assert(raw =~= seq![s, e]);
                        assert(path@ =~= seq![s, e]);
                    }
                }
                Some(path)
            },
        }
    }

    /// Snapping a snapped point leaves it where it is, on a precomputed map.
    pub proof fn lemma_snap_idempotent(&self, p: GridPos)
        requires
            self.wf(),
            self.index_fresh(),
        ensures
            self.snapped(self.snapped(p)) == self.snapped(p),
    {
        if self.object_ids().contains_key(p) && self.nodes_of(self.object_ids()[p]).len() > 0 {
            let id = self.object_ids()[p];
            let nodes = self.nodes_of(id);
            let k0 = lemma_nearest_prefix(p, nodes, nodes.len() as int);
            assert(nodes.subrange(0, nodes.len() as int) =~= nodes);
            let k = choose|k: int| first_nearest(p, nodes, k);
            let r = nodes[k];
            self.lemma_index_bounds();
            assert(nodes.contains(r));
            let c = choose|c: GridPos| #[trigger] self.cells_of(id).contains(c) && is_corner(self.blocked(), c, r);
            assert(!self.blocked().contains(r));
            assert(!self.object_ids().contains_key(r));
        }
    }
}

} // verus!
