//! The map: its blocked cells and the object index built from them.
use vstd::prelude::*;

use crate::connect::{connected, is_corner};
use crate::geometry::{cell_in_range, in_range, same_pos, GridPos};
use std::collections::{HashMap, HashSet};

pub mod objects;
pub mod search;

verus! {

/// Key of an in-range lattice point in the hash containers.
pub open spec fn key_of(p: GridPos) -> i64 {
    (p.0 * 0x1_0000_0000 + p.1) as i64
}

/// Distinct in-range points have distinct keys.
pub proof fn lemma_key_injective(p: GridPos, q: GridPos)
    requires
        in_range(p),
        in_range(q),
        key_of(p) == key_of(q),
    ensures
        p == q,
{
    let a = p.0 as int;
    let b = q.0 as int;
    assert(a == b) by (nonlinear_arith)
        requires
            a * 0x1_0000_0000 + p.1 == b * 0x1_0000_0000 + q.1,
            -100_000_000 <= p.1 <= 100_000_000,
            -100_000_000 <= q.1 <= 100_000_000;
}

fn key(p: GridPos) -> (r: i64)
    requires
        in_range(p),
    ensures
        r == key_of(p),
{
    (p.0 as i64) * 0x1_0000_0000 + (p.1 as i64)
}

/// A grid map of blocked cells on the unbounded lattice.
///
/// Blocked cells are held once each in `cells`, with their keys in `index`.
/// `precompute` groups them into objects: `cell_ids` maps the key of every
/// blocked cell to its object, `object_cells[id]` lists the object's cells and
/// `object_nodes[id]` its corner nodes.
///
/// Adding or removing cells leaves the object index as it was; queries read
/// the index, so `precompute` must run again after a change. A map that was
/// never precomputed has no objects: no endpoint is snapped and no line of
/// sight that meets a blocked cell offers any corner node.
#[derive(Debug)]
pub struct DS2Map {
    cells: Vec<GridPos>,
    index: HashSet<i64>,
    cell_ids: HashMap<i64, usize>,
    object_cells: Vec<Vec<GridPos>>,
    object_nodes: Vec<Vec<GridPos>>,
}

impl DS2Map {
    /// The set of blocked cells.
    pub closed spec fn blocked(&self) -> Set<GridPos> {
        self.cells@.to_set()
    }

    /// Number of objects of the object index.
    pub closed spec fn object_count(&self) -> nat {
        self.object_nodes@.len()
    }

    /// The cells that the object index records, with their object ids.
    pub closed spec fn object_ids(&self) -> Map<GridPos, nat> {
        Map::new(
            |p: GridPos| in_range(p) && self.cell_ids@.contains_key(key_of(p)),
            |p: GridPos| self.cell_ids@[key_of(p)] as nat,
        )
    }

    /// The corner nodes of object `id`, in the order the index lists them.
    pub closed spec fn nodes_of(&self, id: nat) -> Seq<GridPos> {
        self.object_nodes@[id as int]@
    }

    /// The cells of object `id`.
    pub closed spec fn cells_of(&self, id: nat) -> Seq<GridPos> {
        self.object_cells@[id as int]@
    }

    /// Structural invariant: every blocked cell is held once and in range, and
    /// the object index refers only to existing objects and in-range nodes.
    pub closed spec fn wf(&self) -> bool {
        &&& self.cells@.no_duplicates()
        &&& forall|i: int| 0 <= i < self.cells@.len() ==> cell_in_range(#[trigger] self.cells@[i])
        &&& forall|p: GridPos|
            in_range(p) ==> (self.index@.contains(#[trigger] key_of(p)) <==> self.cells@.contains(p))
        &&& self.object_cells@.len() == self.object_nodes@.len()
        &&& forall|k: i64| #[trigger]
            self.cell_ids@.contains_key(k) ==> (self.cell_ids@[k] as int) < self.object_nodes@.len()
        &&& forall|id: int, j: int|
            0 <= id < self.object_nodes@.len() && 0 <= j < self.object_nodes@[id]@.len()
                ==> in_range(#[trigger] self.object_nodes@[id]@[j])
    }

    /// The object index describes the current blocked cells: it partitions
    /// them into their 8-connected components, and lists for each object
    /// exactly the corner nodes that its cells contribute, each once.
    pub open spec fn index_fresh(&self) -> bool {
        &&& forall|p: GridPos| #[trigger]
            self.object_ids().contains_key(p) <==> self.blocked().contains(p)
        &&& forall|p: GridPos, q: GridPos|
            #![trigger self.object_ids()[p], self.object_ids()[q]]
            self.blocked().contains(p) && self.blocked().contains(q) ==> (self.object_ids()[p]
                == self.object_ids()[q] <==> connected(self.blocked(), p, q))
        &&& forall|id: nat|
            id < self.object_count() ==> {
                &&& #[trigger] self.cells_of(id).len() >= 1
                &&& self.cells_of(id).no_duplicates()
                &&& self.nodes_of(id).no_duplicates()
            }
        &&& forall|id: nat, q: GridPos|
            id < self.object_count() ==> (#[trigger] self.cells_of(id).contains(q) <==> (
            self.blocked().contains(q) && self.object_ids()[q] == id))
        &&& forall|id: nat, n: GridPos|
            id < self.object_count() ==> (#[trigger] self.nodes_of(id).contains(n) <==> exists|
                c: GridPos,
            | #[trigger] self.cells_of(id).contains(c) && is_corner(self.blocked(), c, n))
    }

    /// Every blocked cell lies strictly inside the coordinate range.
    pub proof fn lemma_blocked_in_range(&self, p: GridPos)
        requires
            self.wf(),
            self.blocked().contains(p),
        ensures
            cell_in_range(p),
    {
        let i = choose|i: int| 0 <= i < self.cells@.len() && self.cells@[i] == p;
        assert(cell_in_range(self.cells@[i]));
    }

    /// Every id of `object_ids` is below `object_count`, and every node is in range.
    pub proof fn lemma_index_bounds(&self)
        requires
            self.wf(),
        ensures
            forall|p: GridPos| #[trigger]
                self.object_ids().contains_key(p) ==> self.object_ids()[p] < self.object_count(),
            forall|id: nat, j: int|
                id < self.object_count() && 0 <= j < self.nodes_of(id).len() ==> in_range(
                    #[trigger] self.nodes_of(id)[j],
                ),
    {
        assert forall|p: GridPos| #[trigger]
            self.object_ids().contains_key(p) implies self.object_ids()[p] < self.object_count() by {
            assert(self.cell_ids@.contains_key(key_of(p)));
        }
        assert forall|id: nat, j: int|
            id < self.object_count() && 0 <= j < self.nodes_of(id).len() implies in_range(
            #[trigger] self.nodes_of(id)[j],
        ) by {
            assert(in_range(self.object_nodes@[id as int]@[j]));
        }
    }

    /// A map with no blocked cells and no objects.
    pub fn new() -> (r: Self)
        ensures
            r.wf(),
            r.blocked() == Set::<GridPos>::empty(),
            r.object_count() == 0,
            r.object_ids() == Map::<GridPos, nat>::empty(),
    {
        let r = DS2Map {
            cells: Vec::new(),
            index: HashSet::new(),
            cell_ids: HashMap::new(),
            object_cells: Vec::new(),
            object_nodes: Vec::new(),
        };
        assert(r.object_ids() =~= Map::<GridPos, nat>::empty());
        assert(r.blocked() =~= Set::<GridPos>::empty());
        r
    }

    /// Marks `p` blocked.
    fn insert_cell(&mut self, p: GridPos)
        requires
            old(self).wf(),
            cell_in_range(p),
        ensures
            final(self).wf(),
            final(self).blocked() == old(self).blocked().insert(p),
            final(self).object_ids() == old(self).object_ids(),
            final(self).object_count() == old(self).object_count(),
            forall|id: nat| #[trigger] final(self).nodes_of(id) == old(self).nodes_of(id),
            forall|id: nat| #[trigger] final(self).cells_of(id) == old(self).cells_of(id),
    {
        let k = key(p);
        if !self.index.contains(&k) {
            assert(!self.cells@.contains(p));
            self.index.insert(k);
            self.cells.push(p);
            proof {
                assert forall|q: GridPos| #[trigger] self.cells@.contains(q) <==> (old(self).cells@.contains(q) || q == p)
                    by {
                    if q == p {
                        assert(self.cells@[self.cells@.len() - 1] == p);
                    }
                    if old(self).cells@.contains(q) {
                        let i = choose|i: int|
                            0 <= i < old(self).cells@.len() && old(self).cells@[i] == q;
                        assert(self.cells@[i] == q);
                    }
                }
                assert forall|q: GridPos| in_range(q) implies (self.index@.contains(
                    #[trigger] key_of(q),
                ) <==> self.cells@.contains(q)) by {
                    if key_of(q) == key_of(p) {
                        lemma_key_injective(p, q);
                    }
                }
                assert forall|i: int| 0 <= i < self.cells@.len() implies cell_in_range(
                    #[trigger] self.cells@[i],
                ) by {
                    if i < old(self).cells@.len() {
                        assert(self.cells@[i] == old(self).cells@[i]);
                    }
                }
            }
        }
        proof {
            assert(self.blocked() =~= old(self).blocked().insert(p));
        }
    }

    /// Unmarks `p`.
    fn remove_cell(&mut self, p: GridPos)
        requires
            old(self).wf(),
        ensures
            final(self).wf(),
            final(self).blocked() == old(self).blocked().remove(p),
            final(self).object_ids() == old(self).object_ids(),
            final(self).object_count() == old(self).object_count(),
            forall|id: nat| #[trigger] final(self).nodes_of(id) == old(self).nodes_of(id),
            forall|id: nat| #[trigger] final(self).cells_of(id) == old(self).cells_of(id),
    {
        if !in_range_exec(p) {
            proof {
                if self.cells@.contains(p) {
                    let i = choose|i: int| 0 <= i < self.cells@.len() && self.cells@[i] == p;
                    assert(cell_in_range(self.cells@[i]));
                }
                assert(self.blocked() =~= old(self).blocked().remove(p));
            }
            return;
        }
        let k = key(p);
        if self.index.remove(&k) {
            let mut i: usize = 0;
            while i < self.cells.len() && !same_pos(self.cells[i], p)
                invariant
                    0 <= i <= self.cells@.len(),
                    self.cells@ == old(self).cells@,
                    self.cells@.contains(p),
                    forall|j: int| 0 <= j < i ==> self.cells@[j] != p,
                decreases self.cells@.len() - i,
            {
                i = i + 1;
            }
            if i == self.cells.len() {
                proof {
                    let j = choose|j: int| 0 <= j < self.cells@.len() && self.cells@[j] == p;
                    assert(false);
                }
            }
            let ghost before = self.cells@;
            assert(before[i as int] == p);
            self.cells.swap_remove(i);
            proof {
                let after = self.cells@;
                assert(after =~= before.update(i as int, before.last()).drop_last());
                assert forall|q: GridPos| #[trigger] after.contains(q) <==> (before.contains(q) && q != p) by {
                    if after.contains(q) {
                        let j = choose|j: int| 0 <= j < after.len() && after[j] == q;
                        if j == i {
                            assert(q == before[before.len() - 1]);
                            assert(before.len() - 1 != i);
                        } else {
                            assert(q == before[j]);
                        }
                    }
                    if before.contains(q) && q != p {
                        let j = choose|j: int| 0 <= j < before.len() && before[j] == q;
                        if j == before.len() - 1 {
                            assert(after[i as int] == q);
                        } else {
                            assert(after[j] == q);
                        }
                    }
                }
                assert(after.no_duplicates()) by {
                    assert forall|a: int, b: int|
                        0 <= a < after.len() && 0 <= b < after.len() && a != b implies after[a]
                        != after[b] by {
                        let a0 = if a == i { before.len() - 1 } else { a };
                        let b0 = if b == i { before.len() - 1 } else { b };
                        assert(after[a] == before[a0]);
                        assert(after[b] == before[b0]);
                    }
                }
                assert forall|j: int| 0 <= j < after.len() implies cell_in_range(
                    #[trigger] after[j],
                ) by {
                    if j == i {
                        assert(after[j] == before[before.len() - 1]);
                    } else {
                        assert(after[j] == before[j]);
                    }
                }
                assert forall|q: GridPos| in_range(q) implies (self.index@.contains(
                    #[trigger] key_of(q),
                ) <==> self.cells@.contains(q)) by {
                    if key_of(q) == key_of(p) {
                        lemma_key_injective(p, q);
                    }
                }
            }
        }
        proof {
            assert(self.blocked() =~= old(self).blocked().remove(p));
        }
    }

    /// Adds every cell of `objects` to the blocked set.
    pub fn add_objects(&mut self, objects: Vec<GridPos>)
        requires
            old(self).wf(),
            forall|i: int| 0 <= i < objects@.len() ==> cell_in_range(#[trigger] objects@[i]),
        ensures
            final(self).wf(),
            final(self).blocked() == old(self).blocked() + objects@.to_set(),
            final(self).object_ids() == old(self).object_ids(),
            final(self).object_count() == old(self).object_count(),
            forall|id: nat| #[trigger] final(self).nodes_of(id) == old(self).nodes_of(id),
            forall|id: nat| #[trigger] final(self).cells_of(id) == old(self).cells_of(id),
    {
        let mut i: usize = 0;
        while i < objects.len()
            invariant
                0 <= i <= objects@.len(),
                forall|j: int| 0 <= j < objects@.len() ==> cell_in_range(#[trigger] objects@[j]),
                self.wf(),
                self.blocked() == old(self).blocked() + objects@.subrange(0, i as int).to_set(),
                self.object_ids() == old(self).object_ids(),
                self.object_count() == old(self).object_count(),
                forall|id: nat| #[trigger] self.nodes_of(id) == old(self).nodes_of(id),
                forall|id: nat| #[trigger] self.cells_of(id) == old(self).cells_of(id),
            decreases objects@.len() - i,
        {
            self.insert_cell(objects[i]);
            proof {
                assert(objects@.subrange(0, i + 1) =~= objects@.subrange(0, i as int).push(objects@[i as int]));
                assert(objects@.subrange(0, i as int).push(objects@[i as int]).to_set() =~= objects@.subrange(0, i as int).to_set().insert(objects@[i as int])) by {
                    objects@.subrange(0, i as int).lemma_push_to_set_commute(objects@[i as int]);
                }
            }
            i = i + 1;
        }
        assert(objects@.subrange(0, objects@.len() as int) =~= objects@);
        assert(self.blocked() =~= old(self).blocked() + objects@.to_set());
    }

    /// This map with every cell of `objects` added to the blocked set.
    pub fn with_objects(self, objects: Vec<GridPos>) -> (r: Self)
        requires
            self.wf(),
            forall|i: int| 0 <= i < objects@.len() ==> cell_in_range(#[trigger] objects@[i]),
        ensures
            r.wf(),
            r.blocked() == self.blocked() + objects@.to_set(),
            r.object_ids() == self.object_ids(),
            r.object_count() == self.object_count(),
            forall|id: nat| #[trigger] r.nodes_of(id) == self.nodes_of(id),
            forall|id: nat| #[trigger] r.cells_of(id) == self.cells_of(id),
    {
        let mut r = self;
        r.add_objects(objects);
        r
    }

    /// Removes every cell of `objects` from the blocked set.
    pub fn remove_objects(&mut self, objects: Vec<GridPos>)
        requires
            old(self).wf(),
        ensures
            final(self).wf(),
            final(self).blocked() == old(self).blocked() - objects@.to_set(),
            final(self).object_ids() == old(self).object_ids(),
            final(self).object_count() == old(self).object_count(),
            forall|id: nat| #[trigger] final(self).nodes_of(id) == old(self).nodes_of(id),
            forall|id: nat| #[trigger] final(self).cells_of(id) == old(self).cells_of(id),
    {
        let mut i: usize = 0;
        while i < objects.len()
            invariant
                0 <= i <= objects@.len(),
                self.wf(),
                self.blocked() == old(self).blocked() - objects@.subrange(0, i as int).to_set(),
                self.object_ids() == old(self).object_ids(),
                self.object_count() == old(self).object_count(),
                forall|id: nat| #[trigger] self.nodes_of(id) == old(self).nodes_of(id),
                forall|id: nat| #[trigger] self.cells_of(id) == old(self).cells_of(id),
            decreases objects@.len() - i,
        {
            self.remove_cell(objects[i]);
            proof {
                assert(objects@.subrange(0, i + 1) =~= objects@.subrange(0, i as int).push(objects@[i as int]));
                assert(objects@.subrange(0, i as int).push(objects@[i as int]).to_set() =~= objects@.subrange(0, i as int).to_set().insert(objects@[i as int])) by {
                    objects@.subrange(0, i as int).lemma_push_to_set_commute(objects@[i as int]);
                }
                assert(self.blocked() =~= old(self).blocked() - objects@.subrange(0, i + 1).to_set());
            }
            i = i + 1;
        }
        assert(objects@.subrange(0, objects@.len() as int) =~= objects@);
    }

    /// Whether the cell `(x, z)` is blocked.
    pub fn is_blocked(&self, x: isize, z: isize) -> (r: bool)
        requires
            self.wf(),
        ensures
            r == self.blocked().contains((x, z)),
    {
        let p: GridPos = (x, z);
        if !in_range_exec(p) {
            proof {
                if self.cells@.contains(p) {
                    let i = choose|i: int| 0 <= i < self.cells@.len() && self.cells@[i] == p;
                    assert(cell_in_range(self.cells@[i]));
                }
            }
            return false;
        }
        self.index.contains(&key(p))
    }

    /// The blocked cells, each listed once.
    pub fn blocks(&self) -> (r: &Vec<GridPos>)
        requires
            self.wf(),
        ensures
            r@.to_set() == self.blocked(),
            r@.no_duplicates(),
    {
        &self.cells
    }

    /// `(min_x, max_x, min_z, max_z)` over the blocked cells; on a map with no
    /// blocked cell, `(isize::MAX, isize::MIN, isize::MAX, isize::MIN)`.
    pub fn bounds(&self) -> (r: (isize, isize, isize, isize))
        requires
            self.wf(),
        ensures
            self.blocked().is_empty() ==> r == (isize::MAX, isize::MIN, isize::MAX, isize::MIN),
            !self.blocked().is_empty() ==> {
                &&& forall|p: GridPos| #[trigger] self.blocked().contains(p) ==> r.0 <= p.0 <= r.1 && r.2 <= p.1 <= r.3
                &&& exists|p: GridPos| #[trigger] self.blocked().contains(p) && p.0 == r.0
                &&& exists|p: GridPos| #[trigger] self.blocked().contains(p) && p.0 == r.1
                &&& exists|p: GridPos| #[trigger] self.blocked().contains(p) && p.1 == r.2
                &&& exists|p: GridPos| #[trigger] self.blocked().contains(p) && p.1 == r.3
            },
    {
        let mut r: (isize, isize, isize, isize) = (isize::MAX, isize::MIN, isize::MAX, isize::MIN);
        let mut i: usize = 0;
        while i < self.cells.len()
            invariant
                0 <= i <= self.cells@.len(),
                i == 0 ==> r == (isize::MAX, isize::MIN, isize::MAX, isize::MIN),
                forall|j: int| 0 <= j < i ==> r.0 <= (#[trigger] self.cells@[j]).0 <= r.1 && r.2 <= self.cells@[j].1 <= r.3,
                i > 0 ==> exists|j: int| 0 <= j < i && #[trigger] self.cells@[j].0 == r.0,
                i > 0 ==> exists|j: int| 0 <= j < i && #[trigger] self.cells@[j].0 == r.1,
                i > 0 ==> exists|j: int| 0 <= j < i && #[trigger] self.cells@[j].1 == r.2,
                i > 0 ==> exists|j: int| 0 <= j < i && #[trigger] self.cells@[j].1 == r.3,
            decreases self.cells@.len() - i,
        {
            let p = self.cells[i];
            if p.0 < r.0 {
                r.0 = p.0;
            }
            if p.0 > r.1 {
                r.1 = p.0;
            }
            if p.1 < r.2 {
                r.2 = p.1;
            }
            if p.1 > r.3 {
                r.3 = p.1;
            }
            i = i + 1;
        }
        proof {
            if self.cells@.len() == 0 {
                assert(self.blocked() =~= Set::<GridPos>::empty());
            } else {
                assert(self.blocked().contains(self.cells@[0]));
                assert forall|p: GridPos| #[trigger] self.blocked().contains(p) implies r.0 <= p.0 <= r.1 && r.2 <= p.1 <= r.3 by {
                    let j = choose|j: int| 0 <= j < self.cells@.len() && self.cells@[j] == p;
                }
                let j0 = choose|j: int| 0 <= j < i && #[trigger] self.cells@[j].0 == r.0;
                assert(self.blocked().contains(self.cells@[j0]));
                let j1 = choose|j: int| 0 <= j < i && #[trigger] self.cells@[j].0 == r.1;
                assert(self.blocked().contains(self.cells@[j1]));
                let j2 = choose|j: int| 0 <= j < i && #[trigger] self.cells@[j].1 == r.2;
                assert(self.blocked().contains(self.cells@[j2]));
                let j3 = choose|j: int| 0 <= j < i && #[trigger] self.cells@[j].1 == r.3;
                assert(self.blocked().contains(self.cells@[j3]));
            }
        }
        r
    }
}

/// Copies the map; the hash containers are rebuilt from the cell lists.
impl Clone for DS2Map {
    fn clone(&self) -> (r: Self)
        ensures
            self.wf() ==> {
                &&& r.wf()
                &&& r.blocked() == self.blocked()
                &&& r.object_count() == self.object_count()
                &&& forall|id: nat|
                    id < self.object_count() ==> #[trigger] r.nodes_of(id) == self.nodes_of(id) && r.cells_of(id)
                        == self.cells_of(id)
            },
            self.wf() && self.index_fresh() ==> r.index_fresh() && r.object_ids() == self.object_ids(),
    {
        let mut r = DS2Map::new();
        let mut i: usize = 0;
        while i < self.cells.len()
            invariant
                0 <= i <= self.cells@.len(),
                r.wf(),
                r.object_cells@.len() == 0,
                r.cell_ids@ == Map::<i64, usize>::empty(),
                self.wf() ==> r.blocked() == self.cells@.subrange(0, i as int).to_set(),
            decreases self.cells@.len() - i,
        {
            let p = self.cells[i];
            proof {
                assert(self.cells@.subrange(0, i + 1) =~= self.cells@.subrange(0, i as int).push(p));
                self.cells@.subrange(0, i as int).lemma_push_to_set_commute(p);
            }
            if cell_in_range_exec(p) {
                r.insert_cell(p);
            }
            i = i + 1;
        }
        proof {
            assert(self.cells@.subrange(0, self.cells@.len() as int) =~= self.cells@);
        }
        let mut id: usize = 0;
        while id < self.object_cells.len()
            invariant
                0 <= id <= self.object_cells@.len(),
                r.wf(),
                r.object_cells@.len() == id,
                r.cell_ids@ == Map::<i64, usize>::empty(),
                self.wf() ==> r.blocked() == self.blocked(),
                self.wf() ==> forall|k: int| 0 <= k < id ==> #[trigger] r.object_cells@[k]@ == self.object_cells@[k]@
                    && r.object_nodes@[k]@ == self.object_nodes@[k]@,
            decreases self.object_cells@.len() - id,
        {
            let members = &self.object_cells[id];
            let mut cells_copy: Vec<GridPos> = Vec::new();
            let mut j: usize = 0;
            while j < members.len()
                invariant
                    0 <= j <= members@.len(),
                    cells_copy@ == members@.subrange(0, j as int),
                decreases members@.len() - j,
            {
                cells_copy.push(members[j]);
                j = j + 1;
            }
            let mut nodes_copy: Vec<GridPos> = Vec::new();
            if id < self.object_nodes.len() {
                let nodes = &self.object_nodes[id];
                let mut j: usize = 0;
                while j < nodes.len()
                    invariant
                        0 <= j <= nodes@.len(),
                        forall|t: int| 0 <= t < nodes_copy@.len() ==> in_range(#[trigger] nodes_copy@[t]),
                        self.wf() ==> nodes_copy@ == nodes@.subrange(0, j as int),
                        nodes@ == self.object_nodes@[id as int]@,
                        self.wf() ==> forall|t: int| 0 <= t < nodes@.len() ==> in_range(#[trigger] nodes@[t]),
                    decreases nodes@.len() - j,
                {
                    if in_range_exec(nodes[j]) {
                        nodes_copy.push(nodes[j]);
                    }
                    j = j + 1;
                }
                proof {
                    assert(self.wf() ==> nodes@.subrange(0, nodes@.len() as int) =~= nodes@);
                }
            }
            proof {
                assert(members@.subrange(0, members@.len() as int) =~= members@);
            }
            let ghost before = r;
            r.object_cells.push(cells_copy);
            r.object_nodes.push(nodes_copy);
            proof {
                assert(r.blocked() == before.blocked());
                assert forall|i2: int, j2: int|
                    0 <= i2 < r.object_nodes@.len() && 0 <= j2 < r.object_nodes@[i2]@.len() implies in_range(
                    #[trigger] r.object_nodes@[i2]@[j2],
                ) by {
                    if i2 < id {
                        assert(r.object_nodes@[i2] == before.object_nodes@[i2]);
                    }
                }
                if self.wf() {
                    assert forall|k: int| 0 <= k < id + 1 implies #[trigger] r.object_cells@[k]@ == self.object_cells@[k]@
                        && r.object_nodes@[k]@ == self.object_nodes@[k]@ by {
                        if k < id {
                            assert(r.object_cells@[k] == before.object_cells@[k]);
                            assert(r.object_nodes@[k] == before.object_nodes@[k]);
                        }
                    }
                }
            }
            id = id + 1;
        }
        let ghost copied = r;
        let mut id: usize = 0;
        while id < self.object_cells.len()
            invariant
                0 <= id <= self.object_cells@.len(),
                r.wf(),
                r.cells@ == copied.cells@,
                r.index@ == copied.index@,
                r.object_cells@ == copied.object_cells@,
                r.object_nodes@ == copied.object_nodes@,
                copied.object_cells@.len() == self.object_cells@.len(),
                forall|q: GridPos| #[trigger] r.object_ids().contains_key(q) ==> exists|k: int|
                    0 <= k < id && self.object_cells@[k]@.contains(q),
                forall|k: int, q: GridPos|
                    0 <= k < id && #[trigger] self.object_cells@[k]@.contains(q) && in_range(q) ==> r.object_ids().contains_key(q),
                self.wf() && self.index_fresh() ==> forall|q: GridPos| #[trigger]
                    r.object_ids().contains_key(q) ==> self.object_ids().contains_key(q) && r.object_ids()[q] == self.object_ids()[q],
            decreases self.object_cells@.len() - id,
        {
            let members = &self.object_cells[id];
            let mut j: usize = 0;
            while j < members.len()
                invariant
                    0 <= id < self.object_cells@.len(),
                    0 <= j <= members@.len(),
                    members@ == self.object_cells@[id as int]@,
                    r.wf(),
                    r.cells@ == copied.cells@,
                    r.index@ == copied.index@,
                    r.object_cells@ == copied.object_cells@,
                    r.object_nodes@ == copied.object_nodes@,
                    copied.object_cells@.len() == self.object_cells@.len(),
                    forall|q: GridPos| #[trigger] r.object_ids().contains_key(q) ==> exists|k: int|
                        (0 <= k < id && self.object_cells@[k]@.contains(q)) || (k == id && members@.subrange(0, j as int).contains(q)),
                    forall|k: int, q: GridPos|
                        0 <= k < id && #[trigger] self.object_cells@[k]@.contains(q) && in_range(q) ==> r.object_ids().contains_key(q),
                    forall|q: GridPos|
                        #[trigger] members@.subrange(0, j as int).contains(q) && in_range(q) ==> r.object_ids().contains_key(q),
                    self.wf() && self.index_fresh() ==> forall|q: GridPos| #[trigger]
                        r.object_ids().contains_key(q) ==> self.object_ids().contains_key(q) && r.object_ids()[q] == self.object_ids()[q],
                decreases members@.len() - j,
            {
                let p = members[j];
                let ghost before = r.object_ids();
                let ghost pre = members@.subrange(0, j as int);
                let ghost post = members@.subrange(0, j + 1);
                proof {
                    assert(post =~= pre.push(p));
                    assert forall|q: GridPos| #[trigger] post.contains(q) <==> (pre.contains(q) || q == p) by {
                        if pre.contains(q) {
                            let t = choose|t: int| 0 <= t < pre.len() && pre[t] == q;
                            assert(post[t] == q);
                        }
                        if q == p {
                            assert(post[j as int] == p);
                        }
                    }
                }
                if in_range_exec(p) {
                    r.cell_ids.insert(key(p), id);
                    proof {
                        assert forall|q: GridPos| in_range(q) && q != p implies #[trigger] r.object_ids().contains_key(q)
                            == before.contains_key(q) && (before.contains_key(q) ==> r.object_ids()[q] == before[q]) by {
                            if key_of(q) == key_of(p) {
                                lemma_key_injective(q, p);
                            }
                        }
                        assert(r.object_ids().contains_key(p) && r.object_ids()[p] == id as nat);
                        if self.wf() && self.index_fresh() {
                            assert(self.cells_of(id as nat).contains(p)) by {
                                assert(members@[j as int] == p);
                            }
                            self.lemma_index_bounds();
                        }
                        assert forall|q: GridPos| #[trigger] r.object_ids().contains_key(q) implies exists|k: int|
                            (0 <= k < id && self.object_cells@[k]@.contains(q)) || (k == id && post.contains(q)) by {
                            if q == p {
                                assert(post.contains(q));
                            } else {
                                assert(before.contains_key(q));
                                let k = choose|k: int|
                                    (0 <= k < id && self.object_cells@[k]@.contains(q)) || (k == id && pre.contains(q));
                                assert((0 <= k < id && self.object_cells@[k]@.contains(q)) || (k == id && post.contains(q)));
                            }
                        }
                    }
                } else {
                    proof {
                        assert forall|q: GridPos| #[trigger] r.object_ids().contains_key(q) implies exists|k: int|
                            (0 <= k < id && self.object_cells@[k]@.contains(q)) || (k == id && post.contains(q)) by {
                            let k = choose|k: int|
                                (0 <= k < id && self.object_cells@[k]@.contains(q)) || (k == id && pre.contains(q));
                            assert((0 <= k < id && self.object_cells@[k]@.contains(q)) || (k == id && post.contains(q)));
                        }
                    }
                }
                proof {
                    assert forall|k: int, q: GridPos|
                        0 <= k < id && #[trigger] self.object_cells@[k]@.contains(q) && in_range(q) implies r.object_ids().contains_key(q) by {
                        if q != p {
                            assert(before.contains_key(q));
                        }
                    }
                    assert forall|q: GridPos| #[trigger] post.contains(q) && in_range(q) implies r.object_ids().contains_key(q) by {
                        if q != p {
                            assert(pre.contains(q));
                            assert(before.contains_key(q));
                        }
                    }
                }
                j = j + 1;
            }
            proof {
                assert(members@.subrange(0, members@.len() as int) =~= members@);
                assert forall|q: GridPos| #[trigger] r.object_ids().contains_key(q) implies exists|k: int|
                    0 <= k < id + 1 && self.object_cells@[k]@.contains(q) by {
                    let k = choose|k: int|
                        (0 <= k < id && self.object_cells@[k]@.contains(q)) || (k == id && members@.contains(q));
                    assert(0 <= k < id + 1 && self.object_cells@[k]@.contains(q));
                }
                assert forall|k: int, q: GridPos|
                    0 <= k < id + 1 && #[trigger] self.object_cells@[k]@.contains(q) && in_range(q) implies r.object_ids().contains_key(q) by {
                    if k == id {
                        assert(members@.contains(q));
                    }
                }
            }
            id = id + 1;
        }
        proof {
            if self.wf() {
                assert forall|k: nat| k < self.object_count() implies #[trigger] r.nodes_of(k) == self.nodes_of(k)
                    && r.cells_of(k) == self.cells_of(k) by {
                    assert(copied.object_cells@[k as int]@ == self.object_cells@[k as int]@);
                    assert(copied.object_nodes@[k as int]@ == self.object_nodes@[k as int]@);
                }
                assert(r.blocked() == copied.blocked());
            }
            if self.wf() && self.index_fresh() {
                self.lemma_index_bounds();
                assert forall|q: GridPos| #[trigger] r.object_ids().contains_key(q) == self.object_ids().contains_key(q) by {
                    if self.object_ids().contains_key(q) {
                        let k = self.object_ids()[q];
                        assert(self.cells_of(k).contains(q));
                        assert(self.blocked().contains(q));
                        self.lemma_blocked_in_range(q);
                        assert(self.object_cells@[k as int]@.contains(q));
                    }
                }
                assert(r.object_ids() =~= self.object_ids());
                let (b, ids) = (self.blocked(), self.object_ids());
                assert(r.object_count() == self.object_count());
                assert forall|p: GridPos, q: GridPos|
                    #![trigger r.object_ids()[p], r.object_ids()[q]]
                    r.blocked().contains(p) && r.blocked().contains(q) implies (r.object_ids()[p]
                        == r.object_ids()[q] <==> connected(r.blocked(), p, q)) by {
                    assert(ids[p] == ids[q] <==> connected(b, p, q));
                }
                assert forall|k: nat| k < r.object_count() implies {
                    &&& #[trigger] r.cells_of(k).len() >= 1
                    &&& r.cells_of(k).no_duplicates()
                    &&& r.nodes_of(k).no_duplicates()
                } by {
                    assert(self.cells_of(k).len() >= 1);
                }
                assert forall|k: nat, q: GridPos| k < r.object_count() implies (#[trigger] r.cells_of(k).contains(q) <==> (
                    r.blocked().contains(q) && r.object_ids()[q] == k)) by {
                    assert(self.cells_of(k).contains(q) <==> (b.contains(q) && ids[q] == k));
                }
                assert forall|k: nat, n: GridPos| k < r.object_count() implies (#[trigger] r.nodes_of(k).contains(n) <==> exists|
                    c: GridPos,
                | #[trigger] r.cells_of(k).contains(c) && is_corner(r.blocked(), c, n)) by {
                    assert(self.nodes_of(k).contains(n) <==> exists|c: GridPos| #[trigger] self.cells_of(k).contains(c) && is_corner(b, c, n));
                }
            }
        }
        r
    }
}

/// Whether both coordinates of `p` lie strictly inside `(-MAX_COORD, MAX_COORD)`.
fn cell_in_range_exec(p: GridPos) -> (r: bool)
    ensures
        r == cell_in_range(p),
{
    -crate::geometry::MAX_COORD < p.0 && p.0 < crate::geometry::MAX_COORD
        && -crate::geometry::MAX_COORD < p.1 && p.1 < crate::geometry::MAX_COORD
}

/// Whether both coordinates of `p` lie in `[-MAX_COORD, MAX_COORD]`.
pub(crate) fn in_range_exec(p: GridPos) -> (r: bool)
    ensures
        r == in_range(p),
{
    -crate::geometry::MAX_COORD <= p.0 && p.0 <= crate::geometry::MAX_COORD
        && -crate::geometry::MAX_COORD <= p.1 && p.1 <= crate::geometry::MAX_COORD
}

} // verus!
