//! Line of sight between lattice points: a Bresenham walk that reports the
//! first blocked cell it meets.
use vstd::prelude::*;

use crate::geometry::GridPos;
use crate::map::DS2Map;

verus! {

pub open spec fn abs(v: int) -> int {
    if v < 0 {
        -v
    } else {
        v
    }
}

/// Number of x steps of the walk from `a` to `b`.
pub open spec fn span_x(a: GridPos, b: GridPos) -> int {
    abs(b.0 - a.0)
}

/// Number of z steps of the walk from `a` to `b`.
pub open spec fn span_z(a: GridPos, b: GridPos) -> int {
    abs(b.1 - a.1)
}

/// The point reached from `a` towards `b` after `i` x steps and `j` z steps.
pub open spec fn step_at(a: GridPos, b: GridPos, i: int, j: int) -> GridPos {
    let x = if b.0 > a.0 {
        a.0 + i
    } else if b.0 < a.0 {
        a.0 - i
    } else {
        a.0 as int
    };
    let z = if b.1 > a.1 {
        a.1 + j
    } else if b.1 < a.1 {
        a.1 - j
    } else {
        a.1 as int
    };
    (x as isize, z as isize)
}

/// The walk's error term after `i` x steps and `j` z steps: positive when the
/// next step is along x, negative when along z, zero on an exact diagonal.
pub open spec fn tilt(a: GridPos, b: GridPos, i: int, j: int) -> int {
    (2 * j + 1) * span_x(a, b) - (2 * i + 1) * span_z(a, b)
}

/// Steps that the walk still has to take.
pub open spec fn steps_left(a: GridPos, b: GridPos, i: int, j: int) -> int {
    span_x(a, b) + span_z(a, b) - i - j
}

/// `steps_left`, floored at zero.
pub open spec fn measure(a: GridPos, b: GridPos, i: int, j: int) -> nat {
    if steps_left(a, b, i, j) > 0 {
        steps_left(a, b, i, j) as nat
    } else {
        0
    }
}

/// How the error term changes with each step.
pub proof fn lemma_tilt_steps(a: GridPos, b: GridPos, i: int, j: int)
    ensures
        tilt(a, b, 0, 0) == span_x(a, b) - span_z(a, b),
        tilt(a, b, i + 1, j) == tilt(a, b, i, j) - 2 * span_z(a, b),
        tilt(a, b, i, j + 1) == tilt(a, b, i, j) + 2 * span_x(a, b),
        tilt(a, b, i + 1, j + 1) == tilt(a, b, i, j) - 2 * span_z(a, b) + 2 * span_x(a, b),
{
    let dx = span_x(a, b);
    let dz = span_z(a, b);
    assert((2 * j + 1) * dx - (2 * (i + 1) + 1) * dz == (2 * j + 1) * dx - (2 * i + 1) * dz - 2 * dz) by (nonlinear_arith);
    assert((2 * (j + 1) + 1) * dx - (2 * i + 1) * dz == (2 * j + 1) * dx - (2 * i + 1) * dz + 2 * dx) by (nonlinear_arith);
    assert((2 * (j + 1) + 1) * dx - (2 * (i + 1) + 1) * dz == (2 * j + 1) * dx - (2 * i + 1) * dz - 2 * dz + 2 * dx) by (nonlinear_arith);
    assert((2 * 0 + 1) * dx - (2 * 0 + 1) * dz == dx - dz) by (nonlinear_arith);
}

/// The walk from `a` to `b`, resumed after `i` x steps and `j` z steps: the
/// first cell of `blocked` that it meets, or `None` when it reaches `b`.
/// On an exact diagonal it is stopped by the two cells beside the corner when
/// both are blocked (reported as the z-side cell), and by the diagonal cell.
pub open spec fn sight_from(blocked: Set<GridPos>, a: GridPos, b: GridPos, i: int, j: int) -> Option<GridPos>
    decreases measure(a, b, i, j),
{
    if steps_left(a, b, i, j) <= 0 {
        None
    } else if tilt(a, b, i, j) > 0 {
        let c = step_at(a, b, i + 1, j);
        if blocked.contains(c) {
            Some(c)
        } else {
            sight_from(blocked, a, b, i + 1, j)
        }
    } else if tilt(a, b, i, j) < 0 {
        let c = step_at(a, b, i, j + 1);
        if blocked.contains(c) {
            Some(c)
        } else {
            sight_from(blocked, a, b, i, j + 1)
        }
    } else {
        let cx = step_at(a, b, i + 1, j);
        let cz = step_at(a, b, i, j + 1);
        let c = step_at(a, b, i + 1, j + 1);
        if blocked.contains(cx) && blocked.contains(cz) {
            Some(cz)
        } else if blocked.contains(c) {
            Some(c)
        } else {
            sight_from(blocked, a, b, i + 1, j + 1)
        }
    }
}

/// Line of sight from `a` to `b`: `None` when clear, else the first blocked
/// cell met.
pub open spec fn sight(blocked: Set<GridPos>, a: GridPos, b: GridPos) -> Option<GridPos> {
    sight_from(blocked, a, b, 0, 0)
}

/// The points that the walk from `a` to `b` passes through after `i` x steps
/// and `j` z steps, in order, ending at `b`.
pub open spec fn walk_from(a: GridPos, b: GridPos, i: int, j: int) -> Seq<GridPos>
    decreases measure(a, b, i, j),
{
    if steps_left(a, b, i, j) <= 0 {
        Seq::empty()
    } else if tilt(a, b, i, j) > 0 {
        seq![step_at(a, b, i + 1, j)] + walk_from(a, b, i + 1, j)
    } else if tilt(a, b, i, j) < 0 {
        seq![step_at(a, b, i, j + 1)] + walk_from(a, b, i, j + 1)
    } else {
        seq![step_at(a, b, i + 1, j + 1)] + walk_from(a, b, i + 1, j + 1)
    }
}

/// The points that the walk from `a` to `b` passes through, `a` excluded.
pub open spec fn walk(a: GridPos, b: GridPos) -> Seq<GridPos> {
    walk_from(a, b, 0, 0)
}

/// While steps are left, the walk's next step stays within the segment's box.
pub proof fn lemma_step_in_box(dx: int, dz: int, i: int, j: int)
    requires
        0 <= i <= dx,
        0 <= j <= dz,
        i + j < dx + dz,
    ensures
        (2 * j + 1) * dx - (2 * i + 1) * dz > 0 ==> i < dx,
        (2 * j + 1) * dx - (2 * i + 1) * dz < 0 ==> j < dz,
        (2 * j + 1) * dx - (2 * i + 1) * dz == 0 ==> i < dx && j < dz,
{
    if i == dx {
        assert((2 * j + 1) * dx - (2 * i + 1) * dz < 0) by (nonlinear_arith)
            requires i == dx, 0 <= j < dz, 0 <= dx;
    }
    if j == dz {
        assert((2 * j + 1) * dx - (2 * i + 1) * dz > 0) by (nonlinear_arith)
            requires j == dz, 0 <= i < dx, 0 <= dz;
    }
}

/// A clear sight line meets no blocked point of its walk.
pub proof fn lemma_clear_walk_unblocked(blocked: Set<GridPos>, a: GridPos, b: GridPos, i: int, j: int)
    requires
        sight_from(blocked, a, b, i, j) is None,
    ensures
        forall|k: int| 0 <= k < walk_from(a, b, i, j).len() ==> !blocked.contains(#[trigger] walk_from(a, b, i, j)[k]),
    decreases measure(a, b, i, j),
{
    if steps_left(a, b, i, j) <= 0 {
    } else if tilt(a, b, i, j) > 0 {
        lemma_clear_walk_unblocked(blocked, a, b, i + 1, j);
    } else if tilt(a, b, i, j) < 0 {
        lemma_clear_walk_unblocked(blocked, a, b, i, j + 1);
    } else {
        lemma_clear_walk_unblocked(blocked, a, b, i + 1, j + 1);
    }
    let w = walk_from(a, b, i, j);
    assert forall|k: int| 0 <= k < w.len() implies !blocked.contains(#[trigger] w[k]) by {
        if k > 0 {
            if tilt(a, b, i, j) > 0 {
                assert(w[k] == walk_from(a, b, i + 1, j)[k - 1]);
            } else if tilt(a, b, i, j) < 0 {
                assert(w[k] == walk_from(a, b, i, j + 1)[k - 1]);
            } else {
                assert(w[k] == walk_from(a, b, i + 1, j + 1)[k - 1]);
            }
        }
    }
}

/// If the sight line from `a` to `b` is clear, no point that its walk passes
/// through is blocked.
pub proof fn lemma_visibility_sound(blocked: Set<GridPos>, a: GridPos, b: GridPos)
    requires
        sight(blocked, a, b) is None,
    ensures
        forall|k: int| 0 <= k < walk(a, b).len() ==> !blocked.contains(#[trigger] walk(a, b)[k]),
{
    lemma_clear_walk_unblocked(blocked, a, b, 0, 0);
}

/// State `(i, j)` lies on the walk from `a` to `b`: the last x and z line
/// crossings made come before the next ones.
pub open spec fn on_walk(a: GridPos, b: GridPos, i: int, j: int) -> bool {
    let dx = span_x(a, b);
    let dz = span_z(a, b);
    &&& 0 <= i <= dx
    &&& 0 <= j <= dz
    &&& (2 * j - 1) * dx < (2 * i + 1) * dz
    &&& (2 * i - 1) * dz < (2 * j + 1) * dx
}

/// Every test of the walk through state `(i, j)` passes: those of the walk
/// from `b` back to that state's point, the point itself, and those of the
/// walk on to `b`.
pub open spec fn clear_through(blocked: Set<GridPos>, a: GridPos, b: GridPos, i: int, j: int) -> bool {
    &&& sight_from(blocked, b, a, span_x(a, b) - i, span_z(a, b) - j) is None
    &&& !blocked.contains(step_at(a, b, i, j))
    &&& sight_from(blocked, a, b, i, j) is None
}

/// The walk back from `b` meets the points of the walk from `a`.
proof fn lemma_reverse_point(a: GridPos, b: GridPos, i: int, j: int)
    requires
        0 <= i <= span_x(a, b),
        0 <= j <= span_z(a, b),
    ensures
        step_at(b, a, span_x(a, b) - i, span_z(a, b) - j) == step_at(a, b, i, j),
        span_x(b, a) == span_x(a, b),
        span_z(b, a) == span_z(a, b),
        steps_left(b, a, span_x(a, b) - i, span_z(a, b) - j) == i + j,
{
}

/// One step of the walk from `a` keeps it on the walk, and the walk back
/// from `b` takes the same step in reverse.
proof fn lemma_walk_step(a: GridPos, b: GridPos, i: int, j: int)
    requires
        on_walk(a, b, i, j),
        steps_left(a, b, i, j) > 0,
    ensures
        tilt(a, b, i, j) > 0 ==> on_walk(a, b, i + 1, j) && tilt(b, a, span_x(a, b) - (i + 1), span_z(a, b) - j) > 0,
        tilt(a, b, i, j) < 0 ==> on_walk(a, b, i, j + 1) && tilt(b, a, span_x(a, b) - i, span_z(a, b) - (j + 1)) < 0,
        tilt(a, b, i, j) == 0 ==> on_walk(a, b, i + 1, j + 1) && tilt(b, a, span_x(a, b) - (i + 1), span_z(a, b) - (j + 1)) == 0,
{
    let dx = span_x(a, b);
    let dz = span_z(a, b);
    lemma_step_in_box(dx, dz, i, j);
    lemma_reverse_point(a, b, i, j);
    let f = tilt(a, b, i, j);
    assert(f == (2 * j + 1) * dx - (2 * i + 1) * dz);
    if f > 0 {
        let r = tilt(b, a, dx - (i + 1), dz - j);
        assert(r == (2 * (dz - j) + 1) * dx - (2 * (dx - (i + 1)) + 1) * dz);
        assert(r == (2 * i + 1) * dz - (2 * j - 1) * dx) by (nonlinear_arith)
            requires r == (2 * (dz - j) + 1) * dx - (2 * (dx - (i + 1)) + 1) * dz;
        assert((2 * j - 1) * dx < (2 * (i + 1) + 1) * dz) by (nonlinear_arith)
            requires (2 * j - 1) * dx < (2 * i + 1) * dz, dz >= 0;
    } else if f < 0 {
        let r = tilt(b, a, dx - i, dz - (j + 1));
        assert(r == (2 * (dz - (j + 1)) + 1) * dx - (2 * (dx - i) + 1) * dz);
        assert(r == (2 * i - 1) * dz - (2 * j + 1) * dx) by (nonlinear_arith)
            requires r == (2 * (dz - (j + 1)) + 1) * dx - (2 * (dx - i) + 1) * dz;
        assert((2 * i - 1) * dz < (2 * (j + 1) + 1) * dx) by (nonlinear_arith)
            requires (2 * i - 1) * dz < (2 * j + 1) * dx, dx >= 0;
    } else {
        assert(dx > 0 && dz > 0) by (nonlinear_arith)
            requires (2 * j + 1) * dx - (2 * i + 1) * dz == 0, dx + dz > 0, dx >= 0, dz >= 0, i >= 0, j >= 0;
        let r = tilt(b, a, dx - (i + 1), dz - (j + 1));
        assert(r == (2 * (dz - (j + 1)) + 1) * dx - (2 * (dx - (i + 1)) + 1) * dz);
        assert(r == 0) by (nonlinear_arith)
            requires
                r == (2 * (dz - (j + 1)) + 1) * dx - (2 * (dx - (i + 1)) + 1) * dz,
                (2 * j + 1) * dx - (2 * i + 1) * dz == 0;
        assert((2 * (j + 1) - 1) * dx < (2 * (i + 1) + 1) * dz) by (nonlinear_arith)
            requires (2 * j + 1) * dx == (2 * i + 1) * dz, dz > 0;
        assert((2 * (i + 1) - 1) * dz < (2 * (j + 1) + 1) * dx) by (nonlinear_arith)
            requires (2 * j + 1) * dx == (2 * i + 1) * dz, dx > 0;
    }
}

/// Passing through a state of the walk is as clear as passing through the
/// next one.
proof fn lemma_clear_through_step(blocked: Set<GridPos>, a: GridPos, b: GridPos, i: int, j: int)
    requires
        on_walk(a, b, i, j),
        steps_left(a, b, i, j) > 0,
    ensures
        tilt(a, b, i, j) > 0 ==> (clear_through(blocked, a, b, i, j) == clear_through(blocked, a, b, i + 1, j)),
        tilt(a, b, i, j) < 0 ==> (clear_through(blocked, a, b, i, j) == clear_through(blocked, a, b, i, j + 1)),
        tilt(a, b, i, j) == 0 ==> (clear_through(blocked, a, b, i, j) == clear_through(blocked, a, b, i + 1, j + 1)),
{
    let dx = span_x(a, b);
    let dz = span_z(a, b);
    lemma_walk_step(a, b, i, j);
    lemma_step_in_box(dx, dz, i, j);
    lemma_reverse_point(a, b, i, j);
    if tilt(a, b, i, j) > 0 {
        lemma_reverse_point(a, b, i + 1, j);
    } else if tilt(a, b, i, j) < 0 {
        lemma_reverse_point(a, b, i, j + 1);
    } else {
        lemma_reverse_point(a, b, i + 1, j + 1);
        lemma_reverse_point(a, b, i + 1, j);
        lemma_reverse_point(a, b, i, j + 1);
    }
}

/// Along the walk, passing through any state is as clear as passing through
/// the last.
proof fn lemma_clear_through_chain(blocked: Set<GridPos>, a: GridPos, b: GridPos, i: int, j: int)
    requires
        on_walk(a, b, i, j),
    ensures
        clear_through(blocked, a, b, i, j) == clear_through(blocked, a, b, span_x(a, b), span_z(a, b)),
    decreases measure(a, b, i, j),
{
    if steps_left(a, b, i, j) > 0 {
        lemma_clear_through_step(blocked, a, b, i, j);
        lemma_walk_step(a, b, i, j);
        if tilt(a, b, i, j) > 0 {
            lemma_clear_through_chain(blocked, a, b, i + 1, j);
        } else if tilt(a, b, i, j) < 0 {
            lemma_clear_through_chain(blocked, a, b, i, j + 1);
        } else {
            lemma_clear_through_chain(blocked, a, b, i + 1, j + 1);
        }
    }
}

/// Between two unblocked points, sight is clear from `a` to `b` exactly when
/// it is clear from `b` to `a`.
pub proof fn lemma_visibility_symmetric(blocked: Set<GridPos>, a: GridPos, b: GridPos)
    requires
        !blocked.contains(a),
        !blocked.contains(b),
    ensures
        (sight(blocked, a, b) is None) == (sight(blocked, b, a) is None),
{
    let dx = span_x(a, b);
    let dz = span_z(a, b);
    if dx + dz == 0 {
        assert(steps_left(a, b, 0, 0) == 0);
        assert(steps_left(b, a, 0, 0) == 0);
    } else {
        assert(on_walk(a, b, 0, 0));
        lemma_clear_through_chain(blocked, a, b, 0, 0);
        lemma_reverse_point(a, b, 0, 0);
        lemma_reverse_point(a, b, dx, dz);
        assert(step_at(a, b, 0, 0) == a);
        assert(step_at(a, b, dx, dz) == b);
        assert(sight_from(blocked, b, a, dx, dz) is None);
        assert(sight_from(blocked, a, b, dx, dz) is None);
    }
}

impl DS2Map {
    /// Walks from `a` towards `b` and returns the first blocked cell met, or
    /// `None` when the line of sight is clear.
    pub fn compute_visibility(&self, a: GridPos, b: GridPos) -> (r: Option<GridPos>)
        requires
            self.wf(),
        ensures
            r == sight(self.blocked(), a, b),
    {
        let ghost blocked = self.blocked();
        let mut dx: i128 = if b.0 >= a.0 { b.0 as i128 - a.0 as i128 } else { a.0 as i128 - b.0 as i128 };
        let mut dz: i128 = if b.1 >= a.1 { b.1 as i128 - a.1 as i128 } else { a.1 as i128 - b.1 as i128 };
        let mut x: isize = a.0;
        let mut z: isize = a.1;
        let mut n: i128 = dx + dz;
        let x_inc: isize = if b.0 > a.0 { 1 } else if b.0 < a.0 { -1 } else { 0 };
        let z_inc: isize = if b.1 > a.1 { 1 } else if b.1 < a.1 { -1 } else { 0 };
        let mut error: i128 = dx - dz;
        let ghost sdx = dx as int;
        let ghost sdz = dz as int;
        dx = dx * 2;
        dz = dz * 2;
        let ghost mut i: int = 0;
        let ghost mut j: int = 0;
        proof {
            lemma_tilt_steps(a, b, 0, 0);
        }
        while n > 0
            invariant
                sdx == span_x(a, b),
                sdz == span_z(a, b),
                dx == 2 * sdx,
                dz == 2 * sdz,
                x_inc == (if b.0 > a.0 { 1int } else if b.0 < a.0 { -1int } else { 0int }),
                z_inc == (if b.1 > a.1 { 1int } else if b.1 < a.1 { -1int } else { 0int }),
                0 <= i <= sdx,
                0 <= j <= sdz,
                (x, z) == step_at(a, b, i, j),
                error == tilt(a, b, i, j),
                n == steps_left(a, b, i, j),
                blocked == self.blocked(),
                self.wf(),
                sight(blocked, a, b) == sight_from(blocked, a, b, i, j),
            decreases n,
        {
            proof {
                lemma_step_in_box(sdx, sdz, i, j);
                lemma_tilt_steps(a, b, i, j);
            }
            if error > 0 {
                let nx = x + x_inc;
                if self.is_blocked(nx, z) {
                    return Some((nx, z));
                }
                x = nx;
                error = error - dz;
                n = n - 1;
                proof {
                    i = i + 1;
                }
            } else if error < 0 {
                let nz = z + z_inc;
                if self.is_blocked(x, nz) {
                    return Some((x, nz));
                }
                z = nz;
                error = error + dx;
                n = n - 1;
                proof {
                    j = j + 1;
                }
            } else {
                let nx = x + x_inc;
                let nz = z + z_inc;
                if self.is_blocked(nx, z) && self.is_blocked(x, nz) {
                    return Some((x, nz));
                }
                if self.is_blocked(nx, nz) {
                    return Some((nx, nz));
                }
                x = nx;
                z = nz;
                error = error - dz + dx;
                n = n - 2;
                proof {
                    i = i + 1;
                    j = j + 1;
                }
            }
        }
        None
    }
}

} // verus!
