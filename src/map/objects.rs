//! Building the object index: flood fill of 8-connected blocked cells and
//! derivation of their corner nodes.
use vstd::prelude::*;

use super::{key, key_of, lemma_key_injective, DS2Map};
use crate::connect::{
    adjacent, connected, is_corner, lemma_connected_blocked, lemma_connected_refl,
    lemma_connected_step, lemma_connected_symm, lemma_connected_trans,
};
use crate::geometry::{cell_in_range, in_range, GridPos};
use std::collections::{HashMap, HashSet};

verus! {

/// The flood from `p` has queued exactly the cells whose keys are in `seen`,
/// each once, all blocked and connected to `p`.
spec fn flood_core(m: &DS2Map, p: GridPos, seen: Set<i64>, queue: Seq<GridPos>) -> bool {
    &&& queue.len() >= 1
    &&& queue[0] == p
    &&& queue.no_duplicates()
    &&& queue.len() <= m.cells@.len()
    &&& forall|t: int|
        0 <= t < queue.len() ==> m.blocked().contains(#[trigger] queue[t]) && connected(
            m.blocked(),
            p,
            queue[t],
        )
    &&& forall|q: GridPos| in_range(q) ==> (seen.contains(#[trigger] key_of(q)) <==> queue.contains(q))
}

/// The corner nodes found so far are held once each, in range, with their keys in `seen`.
spec fn corner_core(seen: Set<i64>, out: Seq<GridPos>) -> bool {
    &&& out.no_duplicates()
    &&& forall|t: int| 0 <= t < out.len() ==> in_range(#[trigger] out[t])
    &&& forall|q: GridPos| in_range(q) ==> (seen.contains(#[trigger] key_of(q)) <==> out.contains(q))
}

/// The objects `0..object_count` are the 8-connected components of their first
/// cells, with their corner nodes, and `object_ids` records exactly their cells.
spec fn built(m: &DS2Map) -> bool {
    &&& forall|id: nat|
        id < m.object_count() ==> {
            &&& #[trigger] m.cells_of(id).len() >= 1
            &&& m.cells_of(id).no_duplicates()
            &&& m.nodes_of(id).no_duplicates()
        }
    &&& forall|id: nat, q: GridPos|
        id < m.object_count() ==> (#[trigger] m.cells_of(id).contains(q) <==> connected(
            m.blocked(),
            m.cells_of(id)[0],
            q,
        ))
    &&& forall|id: nat, n: GridPos|
        id < m.object_count() ==> (#[trigger] m.nodes_of(id).contains(n) <==> exists|c: GridPos|
            #[trigger] m.cells_of(id).contains(c) && is_corner(m.blocked(), c, n))
    &&& forall|q: GridPos| #[trigger]
        m.object_ids().contains_key(q) ==> m.cells_of(m.object_ids()[q]).contains(q)
    &&& forall|id: nat, q: GridPos|
        id < m.object_count() && #[trigger] m.cells_of(id).contains(q) ==> m.object_ids().contains_key(q)
            && m.object_ids()[q] == id
}

impl DS2Map {
    /// Appends `n` to `out` if it is a corner node of `c` not yet listed.
    fn corner_visit(&self, c: GridPos, n: GridPos, seen: &mut HashSet<i64>, out: &mut Vec<GridPos>)
        requires
            self.wf(),
            cell_in_range(c),
            n.0 == c.0 - 1 || n.0 == c.0 + 1,
            n.1 == c.1 - 1 || n.1 == c.1 + 1,
            corner_core(old(seen)@, old(out)@),
        ensures
            corner_core(final(seen)@, final(out)@),
            forall|m: GridPos| #[trigger]
                final(out)@.contains(m) <==> (old(out)@.contains(m) || (m == n && is_corner(
                    self.blocked(),
                    c,
                    n,
                ))),
    {
        let corner = !self.is_blocked(n.0, c.1) && !self.is_blocked(c.0, n.1) && !self.is_blocked(n.0, n.1);
        let k = key(n);
        if corner && !seen.contains(&k) {
            let ghost before = out@;
            seen.insert(k);
            out.push(n);
            proof {
                let after = out@;
                assert forall|r: GridPos| #[trigger] after.contains(r) <==> (before.contains(r) || r == n) by {
                    if before.contains(r) {
                        let t = choose|t: int| 0 <= t < before.len() && before[t] == r;
                        assert(after[t] == r);
                    }
                    if r == n {
                        assert(after[after.len() - 1] == n);
                    }
                }
                assert(after.no_duplicates()) by {
                    assert forall|a: int, b: int|
                        0 <= a < after.len() && 0 <= b < after.len() && a != b implies after[a]
                        != after[b] by {
                        if a < before.len() && b < before.len() {
                            assert(after[a] == before[a] && after[b] == before[b]);
                        } else if a < before.len() {
                            assert(before.contains(after[a]));
                        } else if b < before.len() {
                            assert(before.contains(after[b]));
                        }
                    }
                }
                assert forall|t: int| 0 <= t < after.len() implies in_range(#[trigger] after[t]) by {
                    if t < before.len() {
                        assert(after[t] == before[t]);
                    }
                }
                assert forall|r: GridPos| in_range(r) implies (seen@.contains(#[trigger] key_of(r))
                    <==> after.contains(r)) by {
                    if key_of(r) == key_of(n) {
                        lemma_key_injective(r, n);
                    }
                }
            }
        } else {
            proof {
                if corner {
                    assert(seen@.contains(key_of(n)));
                }
            }
        }
    }

    /// The corner nodes of the cells `members`, each once.
    fn object_corners(&self, members: &Vec<GridPos>) -> (r: Vec<GridPos>)
        requires
            self.wf(),
            forall|k: int| 0 <= k < members@.len() ==> self.blocked().contains(#[trigger] members@[k]),
        ensures
            r@.no_duplicates(),
            forall|t: int| 0 <= t < r@.len() ==> in_range(#[trigger] r@[t]),
            forall|n: GridPos| #[trigger]
                r@.contains(n) <==> exists|c: GridPos| #[trigger]
                    members@.contains(c) && is_corner(self.blocked(), c, n),
    {
        let mut seen: HashSet<i64> = HashSet::new();
        let mut out: Vec<GridPos> = Vec::new();
        let mut i: usize = 0;
        proof {
            assert(seen@ =~= Set::<i64>::empty());
        }
        while i < members.len()
            invariant
                self.wf(),
                0 <= i <= members@.len(),
                forall|k: int| 0 <= k < members@.len() ==> self.blocked().contains(#[trigger] members@[k]),
                corner_core(seen@, out@),
                forall|n: GridPos| #[trigger]
                    out@.contains(n) <==> exists|k: int|
                        0 <= k < i && #[trigger] is_corner(self.blocked(), members@[k], n),
            decreases members@.len() - i,
        {
            let c = members[i];
            proof {
                self.lemma_blocked_in_range(c);
            }
            let ghost o0 = out@;
            self.corner_visit(c, (c.0 - 1, c.1 - 1), &mut seen, &mut out);
            self.corner_visit(c, (c.0 + 1, c.1 - 1), &mut seen, &mut out);
            self.corner_visit(c, (c.0 - 1, c.1 + 1), &mut seen, &mut out);
            self.corner_visit(c, (c.0 + 1, c.1 + 1), &mut seen, &mut out);
            proof {
                assert forall|n: GridPos| #[trigger]
                    out@.contains(n) <==> exists|k: int|
                        0 <= k < i + 1 && #[trigger] is_corner(self.blocked(), members@[k], n) by {
                    if is_corner(self.blocked(), c, n) {
                        assert(out@.contains(n));
                    }
                    if exists|k: int| 0 <= k < i + 1 && #[trigger] is_corner(self.blocked(), members@[k], n) {
                        let k = choose|k: int| 0 <= k < i + 1 && #[trigger] is_corner(self.blocked(), members@[k], n);
                        if k < i {
                            assert(o0.contains(n));
                        }
                    }
                }
            }
            i = i + 1;
        }
        proof {
            assert forall|n: GridPos| #[trigger]
                out@.contains(n) <==> exists|c: GridPos| #[trigger]
                    members@.contains(c) && is_corner(self.blocked(), c, n) by {
                if out@.contains(n) {
                    let k = choose|k: int| 0 <= k < i && #[trigger] is_corner(self.blocked(), members@[k], n);
                    assert(members@.contains(members@[k]));
                }
                if exists|c: GridPos| #[trigger] members@.contains(c) && is_corner(self.blocked(), c, n) {
                    let c = choose|c: GridPos| #[trigger] members@.contains(c) && is_corner(self.blocked(), c, n);
                    let k = choose|k: int| 0 <= k < members@.len() && members@[k] == c;
                    assert(is_corner(self.blocked(), members@[k], n));
                }
            }
        }
        out
    }

    /// Queues `q` if it is blocked and not yet queued.
    fn flood_visit(
        &self,
        Ghost(p): Ghost<GridPos>,
        Ghost(from): Ghost<GridPos>,
        q: GridPos,
        seen: &mut HashSet<i64>,
        queue: &mut Vec<GridPos>,
    )
        requires
            self.wf(),
            in_range(q),
            adjacent(from, q),
            old(queue)@.contains(from),
            flood_core(self, p, old(seen)@, old(queue)@),
        ensures
            flood_core(self, p, final(seen)@, final(queue)@),
            final(queue)@.len() >= old(queue)@.len(),
            final(queue)@.subrange(0, old(queue)@.len() as int) == old(queue)@,
            self.blocked().contains(q) ==> final(queue)@.contains(q),
    {
        let k = key(q);
        if self.is_blocked(q.0, q.1) && !seen.contains(&k) {
            let ghost before = queue@;
            proof {
                let t = choose|t: int| 0 <= t < before.len() && before[t] == from;
                assert(connected(self.blocked(), p, before[t]));
                lemma_connected_step(self.blocked(), p, from, q);
            }
            seen.insert(k);
            queue.push(q);
            proof {
                let after = queue@;
                assert(after.last() == q);
                assert forall|r: GridPos| #[trigger] after.contains(r) <==> (before.contains(r) || r == q) by {
                    if before.contains(r) {
                        let t = choose|t: int| 0 <= t < before.len() && before[t] == r;
                        assert(after[t] == r);
                    }
                }
                assert(after.no_duplicates()) by {
                    assert forall|a: int, b: int|
                        0 <= a < after.len() && 0 <= b < after.len() && a != b implies after[a]
                        != after[b] by {
                        if a < before.len() && b < before.len() {
                            assert(after[a] == before[a] && after[b] == before[b]);
                        } else if a < before.len() {
                            assert(before.contains(after[a]));
                        } else if b < before.len() {
                            assert(before.contains(after[b]));
                        }
                    }
                }
                assert forall|r: GridPos| in_range(r) implies (seen@.contains(#[trigger] key_of(r))
                    <==> after.contains(r)) by {
                    if key_of(r) == key_of(q) {
                        lemma_key_injective(r, q);
                    }
                }
                assert forall|t: int| 0 <= t < after.len() implies self.blocked().contains(
                    #[trigger] after[t],
                ) && connected(self.blocked(), p, after[t]) by {
                    if t < before.len() {
                        assert(after[t] == before[t]);
                    }
                }
                assert(after.to_set().subset_of(self.cells@.to_set())) by {
                    assert forall|r: GridPos| after.to_set().contains(r) implies self.cells@.to_set().contains(r) by {
                        let t = choose|t: int| 0 <= t < after.len() && after[t] == r;
                        assert(self.blocked().contains(after[t]));
                    }
                }
                after.unique_seq_to_set();
                self.cells@.unique_seq_to_set();
                vstd::set_lib::lemma_len_subset(after.to_set(), self.cells@.to_set());
                assert(after.subrange(0, before.len() as int) =~= before);
            }
        } else {
            proof {
                assert(queue@.subrange(0, queue@.len() as int) =~= queue@);
                if self.blocked().contains(q) {
                    assert(seen@.contains(key_of(q)));
                }
            }
        }
    }

    /// The object of the blocked cell `p`: every blocked cell 8-connected to
    /// `p` through blocked cells, each once, `p` first.
    pub fn compute_object(&self, p: GridPos) -> (r: Vec<GridPos>)
        requires
            self.wf(),
            self.blocked().contains(p),
        ensures
            r@.len() >= 1,
            r@[0] == p,
            r@.no_duplicates(),
            forall|q: GridPos| #[trigger] r@.contains(q) <==> connected(self.blocked(), p, q),
    {
        proof {
            self.lemma_blocked_in_range(p);
            lemma_connected_refl(self.blocked(), p);
        }
        let mut seen: HashSet<i64> = HashSet::new();
        seen.insert(key(p));
        let mut queue: Vec<GridPos> = Vec::new();
        queue.push(p);
        proof {
            assert(queue@ =~= seq![p]);
            assert forall|q: GridPos| in_range(q) implies (seen@.contains(#[trigger] key_of(q))
                <==> queue@.contains(q)) by {
                assert(seen@ =~= Set::<i64>::empty().insert(key_of(p)));
                if key_of(q) == key_of(p) {
                    lemma_key_injective(p, q);
                    assert(queue@[0] == q);
                }
                if queue@.contains(q) {
                    let t = choose|t: int| 0 <= t < queue@.len() && queue@[t] == q;
                }
            }
            assert(self.cells@.len() >= 1) by {
                let i = choose|i: int| 0 <= i < self.cells@.len() && self.cells@[i] == p;
            }
        }
        let mut head: usize = 0;
        while head < queue.len()
            invariant
                self.wf(),
                0 <= head <= queue@.len(),
                flood_core(self, p, seen@, queue@),
                forall|t: int, v: GridPos|
                    #![trigger queue@[t], adjacent(queue@[t], v)]
                    0 <= t < head && self.blocked().contains(v) && adjacent(queue@[t], v) ==> queue@.contains(v),
            decreases self.cells@.len() - head,
        {
            let c = queue[head];
            let ghost q0 = queue@;
            let ghost h = head as int;
            proof {
                assert(q0.contains(c));
                self.lemma_blocked_in_range(c);
            }
            self.flood_visit(Ghost(p), Ghost(c), (c.0 - 1, c.1), &mut seen, &mut queue);
            let ghost q1 = queue@;
            self.flood_visit(Ghost(p), Ghost(c), (c.0 + 1, c.1), &mut seen, &mut queue);
            let ghost q2 = queue@;
            self.flood_visit(Ghost(p), Ghost(c), (c.0, c.1 - 1), &mut seen, &mut queue);
            let ghost q3 = queue@;
            self.flood_visit(Ghost(p), Ghost(c), (c.0, c.1 + 1), &mut seen, &mut queue);
            let ghost q4 = queue@;
            self.flood_visit(Ghost(p), Ghost(c), (c.0 - 1, c.1 - 1), &mut seen, &mut queue);
            let ghost q5 = queue@;
            self.flood_visit(Ghost(p), Ghost(c), (c.0 + 1, c.1 - 1), &mut seen, &mut queue);
            let ghost q6 = queue@;
            self.flood_visit(Ghost(p), Ghost(c), (c.0 - 1, c.1 + 1), &mut seen, &mut queue);
            let ghost q7 = queue@;
            self.flood_visit(Ghost(p), Ghost(c), (c.0 + 1, c.1 + 1), &mut seen, &mut queue);
            proof {
                let qf = queue@;
                assert forall|s: int| 0 <= s < q0.len() implies #[trigger] qf[s] == q0[s] by {
                    assert(q1.subrange(0, q0.len() as int)[s] == q0[s]);
                    assert(q2.subrange(0, q1.len() as int)[s] == q1[s]);
                    assert(q3.subrange(0, q2.len() as int)[s] == q2[s]);
                    assert(q4.subrange(0, q3.len() as int)[s] == q3[s]);
                    assert(q5.subrange(0, q4.len() as int)[s] == q4[s]);
                    assert(q6.subrange(0, q5.len() as int)[s] == q5[s]);
                    assert(q7.subrange(0, q6.len() as int)[s] == q6[s]);
                    assert(qf.subrange(0, q7.len() as int)[s] == q7[s]);
                }
                assert forall|r: GridPos| #[trigger] q0.contains(r) implies qf.contains(r) by {
                    let s = choose|s: int| 0 <= s < q0.len() && q0[s] == r;
                    assert(qf[s] == r);
                }
                assert forall|r: GridPos| #[trigger] q1.contains(r) implies qf.contains(r) by {
                    let s = choose|s: int| 0 <= s < q1.len() && q1[s] == r;
                    assert(q2.subrange(0, q1.len() as int)[s] == q1[s]);
                    assert(q3.subrange(0, q2.len() as int)[s] == q2[s]);
                    assert(q4.subrange(0, q3.len() as int)[s] == q3[s]);
                    assert(q5.subrange(0, q4.len() as int)[s] == q4[s]);
                    assert(q6.subrange(0, q5.len() as int)[s] == q5[s]);
                    assert(q7.subrange(0, q6.len() as int)[s] == q6[s]);
                    assert(qf.subrange(0, q7.len() as int)[s] == q7[s]);
                }
                assert forall|r: GridPos| #[trigger] q2.contains(r) implies qf.contains(r) by {
                    let s = choose|s: int| 0 <= s < q2.len() && q2[s] == r;
                    assert(q3.subrange(0, q2.len() as int)[s] == q2[s]);
                    assert(q4.subrange(0, q3.len() as int)[s] == q3[s]);
                    assert(q5.subrange(0, q4.len() as int)[s] == q4[s]);
                    assert(q6.subrange(0, q5.len() as int)[s] == q5[s]);
                    assert(q7.subrange(0, q6.len() as int)[s] == q6[s]);
                    assert(qf.subrange(0, q7.len() as int)[s] == q7[s]);
                }
                assert forall|r: GridPos| #[trigger] q3.contains(r) implies qf.contains(r) by {
                    let s = choose|s: int| 0 <= s < q3.len() && q3[s] == r;
                    assert(q4.subrange(0, q3.len() as int)[s] == q3[s]);
                    assert(q5.subrange(0, q4.len() as int)[s] == q4[s]);
                    assert(q6.subrange(0, q5.len() as int)[s] == q5[s]);
                    assert(q7.subrange(0, q6.len() as int)[s] == q6[s]);
                    assert(qf.subrange(0, q7.len() as int)[s] == q7[s]);
                }
                assert forall|r: GridPos| #[trigger] q4.contains(r) implies qf.contains(r) by {
                    let s = choose|s: int| 0 <= s < q4.len() && q4[s] == r;
                    assert(q5.subrange(0, q4.len() as int)[s] == q4[s]);
                    assert(q6.subrange(0, q5.len() as int)[s] == q5[s]);
                    assert(q7.subrange(0, q6.len() as int)[s] == q6[s]);
                    assert(qf.subrange(0, q7.len() as int)[s] == q7[s]);
                }
                assert forall|r: GridPos| #[trigger] q5.contains(r) implies qf.contains(r) by {
                    let s = choose|s: int| 0 <= s < q5.len() && q5[s] == r;
                    assert(q6.subrange(0, q5.len() as int)[s] == q5[s]);
                    assert(q7.subrange(0, q6.len() as int)[s] == q6[s]);
                    assert(qf.subrange(0, q7.len() as int)[s] == q7[s]);
                }
                assert forall|r: GridPos| #[trigger] q6.contains(r) implies qf.contains(r) by {
                    let s = choose|s: int| 0 <= s < q6.len() && q6[s] == r;
                    assert(q7.subrange(0, q6.len() as int)[s] == q6[s]);
                    assert(qf.subrange(0, q7.len() as int)[s] == q7[s]);
                }
                assert forall|r: GridPos| #[trigger] q7.contains(r) implies qf.contains(r) by {
                    let s = choose|s: int| 0 <= s < q7.len() && q7[s] == r;
                    assert(qf.subrange(0, q7.len() as int)[s] == q7[s]);
                }
                assert forall|t: int, v: GridPos|
                    #![trigger qf[t], adjacent(qf[t], v)]
                    0 <= t < h + 1 && self.blocked().contains(v) && adjacent(qf[t], v) implies qf.contains(v) by {
                    assert(qf[t] == q0[t]);
                    if t < h {
                        assert(q0.contains(v));
                    } else {
                        assert(q0[t] == c);
                    }
                }
            }
            head = head + 1;
        }
        proof {
            let s = queue@.to_set();
            assert forall|u: GridPos, v: GridPos|
                #![trigger s.contains(u), adjacent(u, v)]
                s.contains(u) && self.blocked().contains(v) && adjacent(u, v) implies s.contains(v) by {
                let t = choose|t: int| 0 <= t < queue@.len() && queue@[t] == u;
                assert(adjacent(queue@[t], v));
            }
            assert forall|q: GridPos| #[trigger] queue@.contains(q) <==> connected(self.blocked(), p, q) by {
                if connected(self.blocked(), p, q) {
                    assert(s.contains(p));
                    crate::connect::lemma_closed_set(self.blocked(), s, p, q);
                }
                if queue@.contains(q) {
                    let t = choose|t: int| 0 <= t < queue@.len() && queue@[t] == q;
                }
            }
        }
        queue
    }

    /// Records object `id` for every cell of `members`, none of which the index
    /// holds yet.
    fn record_object(&mut self, members: &Vec<GridPos>, id: usize)
        requires
            forall|k: int| 0 <= k < members@.len() ==> in_range(#[trigger] members@[k]),
            forall|k: int| 0 <= k < members@.len() ==> !old(self).object_ids().contains_key(#[trigger] members@[k]),
        ensures
            final(self).cells@ == old(self).cells@,
            final(self).index@ == old(self).index@,
            final(self).object_cells@ == old(self).object_cells@,
            final(self).object_nodes@ == old(self).object_nodes@,
            forall|k: i64| #[trigger] final(self).cell_ids@.contains_key(k) ==> (old(self).cell_ids@.contains_key(k) && final(self).cell_ids@[k] == old(self).cell_ids@[k]) || final(self).cell_ids@[k] == id,
            forall|q: GridPos| #[trigger] final(self).object_ids().contains_key(q) <==> (old(self).object_ids().contains_key(q) || members@.contains(q)),
            forall|q: GridPos| #[trigger] old(self).object_ids().contains_key(q) ==> final(self).object_ids()[q] == old(self).object_ids()[q],
            forall|q: GridPos| #[trigger] members@.contains(q) ==> final(self).object_ids()[q] == id,
    {
        let mut i: usize = 0;
        while i < members.len()
            invariant
                0 <= i <= members@.len(),
                forall|k: int| 0 <= k < members@.len() ==> in_range(#[trigger] members@[k]),
                forall|k: int| 0 <= k < members@.len() ==> !old(self).object_ids().contains_key(#[trigger] members@[k]),
                self.cells@ == old(self).cells@,
                self.index@ == old(self).index@,
                self.object_cells@ == old(self).object_cells@,
                self.object_nodes@ == old(self).object_nodes@,
                forall|k: i64| #[trigger] self.cell_ids@.contains_key(k) ==> (old(self).cell_ids@.contains_key(k) && self.cell_ids@[k] == old(self).cell_ids@[k]) || self.cell_ids@[k] == id,
                forall|q: GridPos| #[trigger] self.object_ids().contains_key(q) <==> (old(self).object_ids().contains_key(q) || members@.subrange(0, i as int).contains(q)),
                forall|q: GridPos| #[trigger] old(self).object_ids().contains_key(q) ==> self.object_ids()[q] == old(self).object_ids()[q],
                forall|q: GridPos| #[trigger] members@.subrange(0, i as int).contains(q) ==> self.object_ids()[q] == id,
            decreases members@.len() - i,
        {
            let m = members[i];
            let ghost before = self.object_ids();
            self.cell_ids.insert(key(m), id);
            proof {
                let pre = members@.subrange(0, i as int);
                let post = members@.subrange(0, i + 1);
                assert(post =~= pre.push(m));
                assert forall|q: GridPos| #[trigger] post.contains(q) <==> (pre.contains(q) || q == m) by {
                    if pre.contains(q) {
                        let t = choose|t: int| 0 <= t < pre.len() && pre[t] == q;
                        assert(post[t] == q);
                    }
                    if q == m {
                        assert(post[i as int] == m);
                    }
                }
                assert forall|q: GridPos| in_range(q) && q != m implies #[trigger] self.object_ids().contains_key(q) == before.contains_key(q)
                    && (before.contains_key(q) ==> self.object_ids()[q] == before[q]) by {
                    if key_of(q) == key_of(m) {
                        lemma_key_injective(q, m);
                    }
                }
                assert(self.object_ids().contains_key(m) && self.object_ids()[m] == id);
                assert(!old(self).object_ids().contains_key(members@[i as int]));
                assert forall|q: GridPos| #[trigger] old(self).object_ids().contains_key(q) implies self.object_ids()[q] == old(self).object_ids()[q] by {
                    assert(q != m);
                    assert(before.contains_key(q));
                }
                assert forall|q: GridPos| #[trigger] post.contains(q) implies self.object_ids()[q] == id by {
                    if q != m {
                        assert(pre.contains(q));
                        let t = choose|t: int| 0 <= t < pre.len() && pre[t] == q;
                        assert(in_range(members@[t]));
                    }
                }
                assert forall|q: GridPos| #[trigger] self.object_ids().contains_key(q) <==> (old(self).object_ids().contains_key(q) || post.contains(q)) by {
                    if q != m && self.object_ids().contains_key(q) {
                        assert(in_range(q));
                    }
                    if q != m && post.contains(q) {
                        let t = choose|t: int| 0 <= t < post.len() && post[t] == q;
                        assert(in_range(members@[t]));
                    }
                    if q != m && old(self).object_ids().contains_key(q) {
                        assert(in_range(q));
                    }
                }
                assert(!old(self).object_ids().contains_key(members@[i as int]));
            }
            i = i + 1;
        }
        proof {
            assert(members@.subrange(0, members@.len() as int) =~= members@);
        }
    }

    /// Groups the blocked cells into 8-connected objects and derives each
    /// object's corner nodes, replacing the previous object index.
    pub fn precompute(&mut self)
        requires
            old(self).wf(),
        ensures
            final(self).wf(),
            final(self).blocked() == old(self).blocked(),
            final(self).index_fresh(),
    {
        self.cell_ids = HashMap::new();
        self.object_cells = Vec::new();
        self.object_nodes = Vec::new();
        proof {
            assert(self.object_ids() =~= Map::<GridPos, nat>::empty());
        }
        let mut t: usize = 0;
        while t < self.cells.len()
            invariant
                0 <= t <= self.cells@.len(),
                self.wf(),
                self.cells@ == old(self).cells@,
                built(self),
                forall|s: int| 0 <= s < t ==> self.object_ids().contains_key(#[trigger] self.cells@[s]),
            decreases self.cells@.len() - t,
        {
            let c = self.cells[t];
            proof {
                self.lemma_blocked_in_range(c);
            }
            if !self.cell_ids.contains_key(&key(c)) {
                let members = self.compute_object(c);
                let ghost blocked = self.blocked();
                let ghost old_ids = self.object_ids();
                proof {
                    assert forall|k: int| 0 <= k < members@.len() implies self.blocked().contains(#[trigger] members@[k]) by {
                        assert(members@.contains(members@[k]));
                        lemma_connected_blocked(blocked, c, members@[k]);
                    }
                }
                let nodes = self.object_corners(&members);
                let id = self.object_cells.len();
                proof {
                    assert(!old_ids.contains_key(c));
                    assert forall|k: int| 0 <= k < members@.len() implies !old_ids.contains_key(#[trigger] members@[k]) && in_range(members@[k]) by {
                        let q = members@[k];
                        assert(members@.contains(q));
                        assert(connected(blocked, c, q));
                        lemma_connected_blocked(blocked, c, q);
                        self.lemma_blocked_in_range(q);
                        if old_ids.contains_key(q) {
                            let m = old_ids[q];
                            self.lemma_index_bounds();
                            assert(self.cells_of(m).contains(q));
                            let seed = self.cells_of(m)[0];
                            assert(connected(blocked, seed, q));
                            lemma_connected_symm(blocked, c, q);
                            lemma_connected_trans(blocked, seed, q, c);
                            assert(self.cells_of(m).contains(c));
                        }
                    }
                }
                let ghost pre_ids = self.cell_ids@;
                let ghost snap = *self;
                self.record_object(&members, id);
                let ghost rec_ids = self.object_ids();
                self.object_cells.push(members);
                self.object_nodes.push(nodes);
                proof {
                    let ids = self.object_ids();
                    assert(ids =~= rec_ids);
                    assert forall|i: nat| i < id implies #[trigger] self.cells_of(i) == snap.cells_of(i) by {
                        assert(self.object_cells@[i as int] == snap.object_cells@[i as int]);
                    }
                    assert(self.cells_of(id as nat) == members@);
                    assert(self.nodes_of(id as nat) == nodes@);
                    assert(self.blocked() == blocked);
                    assert forall|k: i64| #[trigger] self.cell_ids@.contains_key(k) implies (self.cell_ids@[k] as int) < self.object_nodes@.len() by {
                        if pre_ids.contains_key(k) && self.cell_ids@[k] == pre_ids[k] {
                            assert((pre_ids[k] as int) < id);
                        }
                    }
                    assert forall|i: int, j: int|
                        0 <= i < self.object_nodes@.len() && 0 <= j < self.object_nodes@[i]@.len()
                            implies in_range(#[trigger] self.object_nodes@[i]@[j]) by {
                        if i < id {
                            assert(self.object_nodes@[i] == self.object_nodes@.subrange(0, id as int)[i]);
                        }
                    }
                    assert(self.wf());
                    assert forall|q: GridPos| #[trigger] ids.contains_key(q) implies self.cells_of(ids[q]).contains(q) by {
                        if old_ids.contains_key(q) {
                            assert(ids[q] == old_ids[q]);
                        } else {
                            assert(members@.contains(q));
                        }
                    }
                    assert forall|i: nat, q: GridPos|
                        i < self.object_count() && #[trigger] self.cells_of(i).contains(q) implies ids.contains_key(q) && ids[q] == i by {
                        if i < id {
                            assert(snap.cells_of(i).contains(q));
                            assert(old_ids.contains_key(q));
                        }
                    }
                    assert forall|i: nat| i < id implies #[trigger] self.nodes_of(i) == snap.nodes_of(i) by {
                        assert(self.object_nodes@[i as int] == snap.object_nodes@[i as int]);
                    }
                    assert(snap.blocked() == self.blocked());
                    assert forall|i: nat| i < self.object_count() implies {
                        &&& #[trigger] self.cells_of(i).len() >= 1
                        &&& self.cells_of(i).no_duplicates()
                        &&& self.nodes_of(i).no_duplicates()
                    } by {
                        if i < id {
                            assert(snap.cells_of(i).len() >= 1);
                        }
                    }
                    assert forall|i: nat, q: GridPos| i < self.object_count() implies (#[trigger] self.cells_of(i).contains(q) <==> connected(
                        self.blocked(), self.cells_of(i)[0], q)) by {
                        if i < id {
                            assert(snap.cells_of(i).contains(q) <==> connected(snap.blocked(), snap.cells_of(i)[0], q));
                        }
                    }
                    assert forall|i: nat, n: GridPos| i < self.object_count() implies (#[trigger] self.nodes_of(i).contains(n) <==> exists|c: GridPos|
                        #[trigger] self.cells_of(i).contains(c) && is_corner(self.blocked(), c, n)) by {
                        if i < id {
                            assert(snap.nodes_of(i).contains(n) <==> exists|c: GridPos|
                                #[trigger] snap.cells_of(i).contains(c) && is_corner(snap.blocked(), c, n));
                        }
                    }
                    assert(built(self));
                }
            }
            t = t + 1;
        }
        proof {
            self.lemma_built_precomputed();
        }
    }

    /// An index built over every blocked cell describes the blocked cells.
    proof fn lemma_built_precomputed(&self)
        requires
            self.wf(),
            built(self),
            forall|s: int| 0 <= s < self.cells@.len() ==> self.object_ids().contains_key(#[trigger] self.cells@[s]),
        ensures
            self.index_fresh(),
    {
        let blocked = self.blocked();
        let ids = self.object_ids();
        self.lemma_index_bounds();
        assert forall|p: GridPos| #[trigger] ids.contains_key(p) <==> blocked.contains(p) by {
            if ids.contains_key(p) {
                let id = ids[p];
                assert(self.cells_of(id).contains(p));
                lemma_connected_blocked(blocked, self.cells_of(id)[0], p);
            }
            if blocked.contains(p) {
                let s = choose|s: int| 0 <= s < self.cells@.len() && self.cells@[s] == p;
                assert(ids.contains_key(self.cells@[s]));
            }
        }
        assert forall|p: GridPos, q: GridPos|
            #![trigger ids[p], ids[q]]
            blocked.contains(p) && blocked.contains(q) implies (ids[p] == ids[q] <==> connected(blocked, p, q)) by {
            assert(ids.contains_key(p) && ids.contains_key(q));
            let ip = ids[p];
            let iq = ids[q];
            assert(self.cells_of(ip).contains(p));
            assert(self.cells_of(iq).contains(q));
            let sp = self.cells_of(ip)[0];
            assert(connected(blocked, sp, p));
            if ip == iq {
                assert(connected(blocked, sp, q));
                lemma_connected_symm(blocked, sp, p);
                lemma_connected_trans(blocked, p, sp, q);
            }
            if connected(blocked, p, q) {
                lemma_connected_trans(blocked, sp, p, q);
                assert(self.cells_of(ip).contains(q));
            }
        }
        assert forall|id: nat, q: GridPos|
            id < self.object_count() implies (#[trigger] self.cells_of(id).contains(q) <==> (
            blocked.contains(q) && ids[q] == id)) by {
            if self.cells_of(id).contains(q) {
                lemma_connected_blocked(blocked, self.cells_of(id)[0], q);
            }
            if blocked.contains(q) && ids[q] == id {
                assert(ids.contains_key(q));
            }
        }
    }

    /// This map with its object index built.
    pub fn precomputed(self) -> (r: Self)
        requires
            self.wf(),
        ensures
            r.wf(),
            r.blocked() == self.blocked(),
            r.index_fresh(),
    {
        let mut r = self;
        r.precompute();
        r
    }

    /// After `precompute`, every blocked cell belongs to exactly one object,
    /// the objects' cells are exactly the blocked cells, and two blocked cells
    /// share an object exactly when they are 8-connected through blocked cells.
    pub proof fn lemma_partition(&self)
        requires
            self.wf(),
            self.index_fresh(),
        ensures
            forall|p: GridPos| #[trigger]
                self.blocked().contains(p) ==> self.object_ids().contains_key(p) && self.object_ids()[p]
                    < self.object_count(),
            forall|id: nat, p: GridPos|
                id < self.object_count() && self.blocked().contains(p) ==> (#[trigger] self.cells_of(id).contains(p)
                    <==> id == self.object_ids()[p]),
            forall|id: nat, p: GridPos|
                id < self.object_count() && #[trigger] self.cells_of(id).contains(p) ==> self.blocked().contains(p),
            forall|p: GridPos, q: GridPos|
                #![trigger self.object_ids()[p], self.object_ids()[q]]
                self.blocked().contains(p) && self.blocked().contains(q) ==> (self.object_ids()[p]
                    == self.object_ids()[q] <==> connected(self.blocked(), p, q)),
    {
        self.lemma_index_bounds();
        assert forall|p: GridPos| #[trigger] self.blocked().contains(p) implies self.object_ids().contains_key(p)
            && self.object_ids()[p] < self.object_count() by {
            assert(self.object_ids().contains_key(p));
        }
    }

    /// After `precompute`, no corner node is blocked, and each corner node of
    /// an object is a diagonal neighbour of one of its cells whose two cells
    /// beside the corner are unblocked.
    pub proof fn lemma_node_validity(&self)
        requires
            self.wf(),
            self.index_fresh(),
        ensures
            forall|id: nat, n: GridPos|
                id < self.object_count() && #[trigger] self.nodes_of(id).contains(n) ==> {
                    &&& !self.blocked().contains(n)
                    &&& exists|c: GridPos|
                        #[trigger] self.cells_of(id).contains(c) && adjacent(c, n) && is_corner(
                            self.blocked(),
                            c,
                            n,
                        )
                },
    {
        assert forall|id: nat, n: GridPos|
            id < self.object_count() && #[trigger] self.nodes_of(id).contains(n) implies {
                &&& !self.blocked().contains(n)
                &&& exists|c: GridPos|
                    #[trigger] self.cells_of(id).contains(c) && adjacent(c, n) && is_corner(self.blocked(), c, n)
            } by {
            let c = choose|c: GridPos| #[trigger] self.cells_of(id).contains(c) && is_corner(self.blocked(), c, n);
            assert(adjacent(c, n));
        }
    }
}

/// Two maps with the same blocked cells, both precomputed, group the cells
/// alike: two cells share an object in one exactly when they do in the other.
pub proof fn lemma_precompute_deterministic(m1: &DS2Map, m2: &DS2Map)
    requires
        m1.wf(),
        m2.wf(),
        m1.index_fresh(),
        m2.index_fresh(),
        m1.blocked() == m2.blocked(),
    ensures
        forall|p: GridPos, q: GridPos|
            #![trigger m1.object_ids()[p], m1.object_ids()[q]]
            m1.blocked().contains(p) && m1.blocked().contains(q) ==> (m1.object_ids()[p]
                == m1.object_ids()[q] <==> m2.object_ids()[p] == m2.object_ids()[q]),
{
    assert forall|p: GridPos, q: GridPos|
        #![trigger m1.object_ids()[p], m1.object_ids()[q]]
        m1.blocked().contains(p) && m1.blocked().contains(q) implies (m1.object_ids()[p]
            == m1.object_ids()[q] <==> m2.object_ids()[p] == m2.object_ids()[q]) by {
        assert(m2.blocked().contains(p) && m2.blocked().contains(q));
        assert(m2.object_ids()[p] == m2.object_ids()[q] <==> connected(m2.blocked(), p, q));
    }
}

} // verus!
