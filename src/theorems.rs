use vstd::prelude::*;
use crate::grid::{Pos, lemma_grid_count_all};
use crate::model::{Direction, MazeState, origin};

verus! {

/// Once a maze is completed, every cell of the grid is visited.
pub proof fn lemma_completed_spans_grid(s: MazeState)
    requires
        s.inv(),
        s.completed,
    ensures
        s.all_visited(),
{
}

/// Once a maze is completed, exactly `width * height - 1` walls are cleared,
/// each cleared wall joins two visited cells, and every cell is reached from
/// the origin by a walk through cleared walls.
pub proof fn lemma_completed_wall_count_and_connected(s: MazeState)
    requires
        s.inv(),
        s.completed,
    ensures
        s.cleared() == s.width * s.height - 1,
        forall|x: int, y: int|
            0 <= x < s.width && 0 <= y < s.height && !#[trigger] s.vertical_walls[x][y]
                ==> x >= 1 && s.visited[x - 1][y] && s.visited[x][y],
        forall|x: int, y: int|
            0 <= x < s.width && 0 <= y < s.height && !#[trigger] s.horizontal_walls[x][y]
                ==> y >= 1 && s.visited[x][y - 1] && s.visited[x][y],
        forall|c: Pos| s.in_grid(c) ==> #[trigger] s.linked_to_origin(c),
{
    reveal(MazeState::cleared_between_visited);
    reveal(MazeState::connected);
    assert forall|c: Pos| s.in_grid(c) implies #[trigger] s.linked_to_origin(c) by {
        assert(s.visited[c.0][c.1]);
        assert(c == (c.0, c.1));
    }
    lemma_grid_count_all(s.visited, s.height, true);
}

/// The backtrack stack followed by the active position is a simple path from
/// the origin whose consecutive cells are joined by cleared walls; the stack
/// holds one position per edge of that path.
pub proof fn lemma_stack_is_carved_path(s: MazeState)
    requires
        s.inv(),
    ensures
        s.path().len() == s.stack.len() + 1,
        s.path()[0] == origin(),
        s.path()[s.path().len() - 1] == s.active,
        forall|i: int| 0 <= i < s.path().len() ==> s.in_grid(#[trigger] s.path()[i]),
        forall|i: int| 0 <= i < s.path().len() - 1 ==> s.open_between(#[trigger] s.path()[i], s.path()[i + 1]),
        forall|i: int, j: int| 0 <= i < j < s.path().len() ==> #[trigger] s.path()[i] != #[trigger] s.path()[j],
{
    reveal(MazeState::path_carved);
}

/// A completed maze stays completed whatever direction is drawn.
pub proof fn lemma_completion_monotonic(s: MazeState, d: Direction)
    requires
        s.inv(),
        s.completed,
    ensures
        s.step(d).0.completed,
{
    s.lemma_step_inv(d);
}

/// A step on a completed maze changes nothing and clears no wall.
pub proof fn lemma_completed_fixed_point(s: MazeState, d: Direction)
    requires
        s.inv(),
        s.completed,
    ensures
        s.step(d) == (s, false),
{
    s.lemma_step_inv(d);
}

} // verus!

verus! {

/// An index of `p` whose cell has the greatest depth.
proof fn lemma_deepest(p: Seq<Pos>, dep: spec_fn(Pos) -> nat) -> (m: int)
    requires
        p.len() > 0,
    ensures
        0 <= m < p.len(),
        forall|i: int| 0 <= i < p.len() ==> dep(#[trigger] p[i]) <= dep(p[m]),
    decreases p.len(),
{
    if p.len() == 1 {
        0
    } else {
        let k = lemma_deepest(p.drop_last(), dep);
        assert forall|i: int| 0 <= i < p.len() - 1 implies #[trigger] p[i] == p.drop_last()[i] by {}
        if dep(p.last()) > dep(p[k]) {
            p.len() - 1
        } else {
            k
        }
    }
}

/// The cleared walls never close a cycle: together with the count and the
/// connectivity above, the cleared walls of a completed maze form a spanning tree.
pub proof fn lemma_no_cycle(s: MazeState, p: Seq<Pos>)
    requires
        s.inv(),
    ensures
        !s.is_cycle(p),
{
    reveal(MazeState::has_tree_depths);
    if s.is_cycle(p) {
        let dep = choose|dep: spec_fn(Pos) -> nat| s.tree_depths(dep);
        let m = lemma_deepest(p, dep);
        let len = p.len() as int;
        let prev = if m == 0 { len - 1 } else { m - 1 };
        let next = if m == len - 1 { 0 } else { m + 1 };
        assert(s.open_between(p[m], p[next]));
        assert(s.open_between(p[prev], p[m]));
        assert(s.open_between(p[m], p[prev]));
        assert(s.in_grid(p[m]) && s.in_grid(p[prev]) && s.in_grid(p[next]));
        assert(dep(p[next]) <= dep(p[m]) && dep(p[prev]) <= dep(p[m]));
        assert(p[next] == p[prev]);
        if prev < next {
            assert(p[prev] != p[next]);
        } else {
            assert(p[next] != p[prev]);
        }
    }
}

} // verus!

verus! {

/// Along a simple carved walk from the origin, the depth of the `i`-th cell is `i`.
proof fn lemma_depth_along(s: MazeState, dep: spec_fn(Pos) -> nat, q: Seq<Pos>, i: int)
    requires
        s.tree_depths(dep),
        s.simple_walk(q),
        q[0] == origin(),
        0 <= i < q.len(),
    ensures
        dep(q[i]) == i,
    decreases i,
{
    if i > 0 {
        lemma_depth_along(s, dep, q, i - 1);
        assert(s.open_between(q[i - 1], q[i]));
        assert(s.in_grid(q[i - 1]) && s.in_grid(q[i]));
        if dep(q[i]) != i {
            lemma_depth_along(s, dep, q, i - 2);
            assert(s.open_between(q[i - 2], q[i - 1]));
            assert(s.open_between(q[i - 1], q[i - 2]));
            assert(s.in_grid(q[i - 2]));
            assert(q[i - 2] != q[i]);
        }
    }
}

/// Two simple carved walks from the origin to the same cell agree from index `k` on.
proof fn lemma_walks_agree(s: MazeState, dep: spec_fn(Pos) -> nat, q1: Seq<Pos>, q2: Seq<Pos>, k: int)
    requires
        s.tree_depths(dep),
        s.simple_walk(q1),
        s.simple_walk(q2),
        q1[0] == origin(),
        q2[0] == origin(),
        q1.len() == q2.len(),
        q1.last() == q2.last(),
        0 <= k < q1.len(),
    ensures
        forall|j: int| k <= j < q1.len() ==> #[trigger] q1[j] == q2[j],
    decreases q1.len() - k,
{
    if k < q1.len() - 1 {
        lemma_walks_agree(s, dep, q1, q2, k + 1);
        lemma_depth_along(s, dep, q1, k);
        lemma_depth_along(s, dep, q2, k);
        lemma_depth_along(s, dep, q1, k + 1);
        let c = q1[k + 1];
        assert(c == q2[k + 1]);
        assert(s.open_between(q1[k], c) && s.open_between(c, q1[k]));
        assert(s.open_between(q2[k], c) && s.open_between(c, q2[k]));
        assert(s.in_grid(q1[k]) && s.in_grid(q2[k]) && s.in_grid(c));
    }
}

/// The stack followed by the active position is the only simple walk through
/// cleared walls from the origin to the active position.
pub proof fn lemma_stack_path_unique(s: MazeState, q: Seq<Pos>)
    requires
        s.inv(),
        s.simple_walk(q),
        q[0] == origin(),
        q.last() == s.active,
    ensures
        q == s.path(),
{
    reveal(MazeState::has_tree_depths);
    reveal(MazeState::path_carved);
    let dep = choose|dep: spec_fn(Pos) -> nat| s.tree_depths(dep);
    let sp = s.path();
    assert(sp[sp.len() - 1] == s.active);
    assert(s.simple_walk(sp));
    lemma_depth_along(s, dep, q, q.len() - 1);
    lemma_depth_along(s, dep, sp, sp.len() - 1);
    lemma_walks_agree(s, dep, q, sp, 0);
    assert(q =~= sp);
}

} // verus!
