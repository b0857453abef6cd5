use vstd::prelude::*;
use crate::grid::{Pos, is_grid, set2, grid_count};

verus! {

/// One of the four unit moves on the grid.
#[derive(Clone, Copy, Debug, PartialEq, Eq)]
pub enum Direction {
    North,
    South,
    East,
    West,
}

impl Direction {
    /// The offset `(dx, dy)` of the move; `y` grows southward.
    pub open spec fn delta(self) -> Pos {
        match self {
            Direction::North => (0, -1),
            Direction::South => (0, 1),
            Direction::East => (1, 0),
            Direction::West => (-1, 0),
        }
    }
}

/// The abstract state of a maze under construction.
///
/// Grids are indexed `[x][y]`. `vertical_walls[x][y]` is the wall between
/// `(x - 1, y)` and `(x, y)`, `horizontal_walls[x][y]` the one between
/// `(x, y - 1)` and `(x, y)`; `true` means the wall stands. The entries with
/// `x == 0`, resp. `y == 0`, stand for the outer border and never change.
pub struct MazeState {
    pub width: int,
    pub height: int,
    pub visited: Seq<Seq<bool>>,
    pub vertical_walls: Seq<Seq<bool>>,
    pub horizontal_walls: Seq<Seq<bool>>,
    pub active: Pos,
    pub stack: Seq<Pos>,
    pub completed: bool,
}

pub open spec fn origin() -> Pos {
    (0, 0)
}

pub open spec fn moved(p: Pos, d: Direction) -> Pos {
    (p.0 + d.delta().0, p.1 + d.delta().1)
}

impl MazeState {
    /// The freshly built maze: nothing visited, every wall standing.
    pub open spec fn initial(width: int, height: int) -> MazeState {
        MazeState {
            width,
            height,
            visited: Seq::new(width as nat, |x: int| Seq::new(height as nat, |y: int| false)),
            vertical_walls: Seq::new(width as nat, |x: int| Seq::new(height as nat, |y: int| true)),
            horizontal_walls: Seq::new(
                width as nat,
                |x: int| Seq::new(height as nat, |y: int| true),
            ),
            active: origin(),
            stack: Seq::empty(),
            completed: false,
        }
    }

    pub open spec fn in_grid(self, p: Pos) -> bool {
        0 <= p.0 < self.width && 0 <= p.1 < self.height
    }

    pub open spec fn is_visited(self, p: Pos) -> bool {
        self.visited[p.0][p.1]
    }

    /// Every in-grid neighbour of `p` is visited.
    pub open spec fn dead_end(self, p: Pos) -> bool {
        &&& self.in_grid((p.0, p.1 - 1)) ==> self.is_visited((p.0, p.1 - 1))
        &&& self.in_grid((p.0, p.1 + 1)) ==> self.is_visited((p.0, p.1 + 1))
        &&& self.in_grid((p.0 - 1, p.1)) ==> self.is_visited((p.0 - 1, p.1))
        &&& self.in_grid((p.0 + 1, p.1)) ==> self.is_visited((p.0 + 1, p.1))
    }

    /// `p` and `q` are neighbours and the wall between them is cleared.
    pub open spec fn open_between(self, p: Pos, q: Pos) -> bool {
        ||| q == (p.0 + 1, p.1) && !self.vertical_walls[q.0][q.1]
        ||| q == (p.0 - 1, p.1) && !self.vertical_walls[p.0][p.1]
        ||| q == (p.0, p.1 + 1) && !self.horizontal_walls[q.0][q.1]
        ||| q == (p.0, p.1 - 1) && !self.horizontal_walls[p.0][p.1]
    }

    /// The stack followed by the active position.
    pub open spec fn path(self) -> Seq<Pos> {
        self.stack.push(self.active)
    }

    /// Number of cleared walls.
    pub open spec fn cleared(self) -> nat {
        grid_count(self.vertical_walls, false) + grid_count(self.horizontal_walls, false)
    }

    /// Number of visited cells.
    pub open spec fn visited_count(self) -> nat {
        grid_count(self.visited, true)
    }

    pub open spec fn nothing_visited(self) -> bool {
        forall|x: int, y: int|
            0 <= x < self.width && 0 <= y < self.height ==> !#[trigger] self.visited[x][y]
    }

    pub open spec fn all_visited(self) -> bool {
        forall|x: int, y: int|
            0 <= x < self.width && 0 <= y < self.height ==> #[trigger] self.visited[x][y]
    }

    /// Pop the stack into the active position; reaching the origin completes the maze.
    pub open spec fn backtracked(self) -> MazeState {
        if self.stack.len() == 0 {
            self
        } else {
            let p = self.stack.last();
            MazeState {
                active: p,
                stack: self.stack.drop_last(),
                completed: self.completed || p == origin(),
                ..self
            }
        }
    }

    /// Carve from the active position into `n`, its neighbour in direction `d`.
    pub open spec fn carved(self, d: Direction, n: Pos) -> MazeState {
        let a = self.active;
        let visited = set2(set2(self.visited, a, true), n, true);
        let (vw, hw) = match d {
            Direction::East => (set2(self.vertical_walls, n, false), self.horizontal_walls),
            Direction::West => (set2(self.vertical_walls, a, false), self.horizontal_walls),
            Direction::South => (self.vertical_walls, set2(self.horizontal_walls, n, false)),
            Direction::North => (self.vertical_walls, set2(self.horizontal_walls, a, false)),
        };
        MazeState {
            visited,
            vertical_walls: vw,
            horizontal_walls: hw,
            stack: self.stack.push(a),
            active: n,
            ..self
        }
    }

    /// One step of the carving algorithm with the drawn direction `d`: the next
    /// state, and whether a wall was cleared.
    pub open spec fn step(self, d: Direction) -> (MazeState, bool) {
        let n = moved(self.active, d);
        if !self.in_grid(n) {
            (self, false)
        } else if self.dead_end(self.active) {
            (self.backtracked(), false)
        } else if !self.is_visited(n) {
            (self.carved(d, n), true)
        } else {
            (self, false)
        }
    }

    pub open spec fn shaped(self) -> bool {
        &&& 1 <= self.width <= i32::MAX
        &&& 1 <= self.height <= i32::MAX
        &&& is_grid(self.visited, self.width, self.height)
        &&& is_grid(self.vertical_walls, self.width, self.height)
        &&& is_grid(self.horizontal_walls, self.width, self.height)
    }

    #[verifier::opaque]
    pub open spec fn borders_stand(self) -> bool {
        &&& forall|y: int| 0 <= y < self.height ==> #[trigger] self.vertical_walls[0][y]
        &&& forall|x: int| 0 <= x < self.width ==> #[trigger] self.horizontal_walls[x][0]
    }

    /// A cleared wall always joins two visited cells.
    #[verifier::opaque]
    pub open spec fn cleared_between_visited(self) -> bool {
        &&& forall|x: int, y: int|
            0 <= x < self.width && 0 <= y < self.height && !#[trigger] self.vertical_walls[x][y]
                ==> x >= 1 && self.visited[x - 1][y] && self.visited[x][y]
        &&& forall|x: int, y: int|
            0 <= x < self.width && 0 <= y < self.height && !#[trigger] self.horizontal_walls[x][y]
                ==> y >= 1 && self.visited[x][y - 1] && self.visited[x][y]
    }

    /// The stack and the active position form a simple path of carved edges
    /// from the origin.
    #[verifier::opaque]
    pub open spec fn path_carved(self) -> bool {
        let path = self.path();
        &&& path[0] == origin()
        &&& forall|i: int| 0 <= i < path.len() ==> self.in_grid(#[trigger] path[i])
        &&& forall|i: int| 0 <= i < path.len() - 1 ==> self.open_between(#[trigger] path[i], path[i + 1])
        &&& forall|i: int, j: int| 0 <= i < j < path.len() ==> #[trigger] path[i] != #[trigger] path[j]
        &&& self.stack.len() > 0 ==> forall|i: int| 0 <= i < path.len() ==> self.is_visited(#[trigger] path[i])
    }

    /// A visited cell off the path has no unvisited neighbour left.
    #[verifier::opaque]
    pub open spec fn off_path_finished(self) -> bool {
        forall|x: int, y: int|
            0 <= x < self.width && 0 <= y < self.height && #[trigger] self.visited[x][y]
                && !self.path().contains((x, y)) ==> self.dead_end((x, y))
    }

    /// `p` is a walk of in-grid cells, each joined to the next by a cleared wall.
    pub open spec fn carved_walk(self, p: Seq<Pos>) -> bool {
        &&& p.len() >= 1
        &&& forall|i: int| 0 <= i < p.len() ==> self.in_grid(#[trigger] p[i])
        &&& forall|i: int| 0 <= i < p.len() - 1 ==> self.open_between(#[trigger] p[i], p[i + 1])
    }

    /// Some walk through cleared walls leads from the origin to `c`.
    pub open spec fn linked_to_origin(self, c: Pos) -> bool {
        exists|p: Seq<Pos>| self.carved_walk(p) && p[0] == origin() && p.last() == c
    }

    /// Every visited cell is reached from the origin through cleared walls.
    #[verifier::opaque]
    pub open spec fn connected(self) -> bool {
        forall|x: int, y: int|
            0 <= x < self.width && 0 <= y < self.height && #[trigger] self.visited[x][y]
                ==> exists|p: Seq<Pos>| self.carved_walk(p) && p[0] == origin() && p.last() == (x, y)
    }

    /// A carved walk that never repeats a cell.
    pub open spec fn simple_walk(self, p: Seq<Pos>) -> bool {
        &&& self.carved_walk(p)
        &&& forall|i: int, j: int| 0 <= i < j < p.len() ==> #[trigger] p[i] != #[trigger] p[j]
    }

    /// `dep` gives the origin depth zero and the cells depths such that every cleared wall joins cells
    /// whose depths differ by one, and no cell has two cleared walls towards
    /// shallower cells.
    pub open spec fn tree_depths(self, dep: spec_fn(Pos) -> nat) -> bool {
        &&& dep(origin()) == 0
        &&& forall|p: Pos, q: Pos|
            self.in_grid(p) && self.in_grid(q) && #[trigger] self.open_between(p, q)
                ==> dep(q) == dep(p) + 1 || dep(p) == dep(q) + 1
        &&& forall|p: Pos, q: Pos, r: Pos|
            self.in_grid(p) && self.in_grid(q) && self.in_grid(r) && #[trigger] self.open_between(p, q)
                && #[trigger] self.open_between(p, r) && dep(q) < dep(p) && dep(r) < dep(p) ==> q == r
    }

    #[verifier::opaque]
    pub open spec fn has_tree_depths(self) -> bool {
        exists|dep: spec_fn(Pos) -> nat| self.tree_depths(dep)
    }

    /// `p` lists at least three distinct cells, each joined to the next, and
    /// the last to the first, by a cleared wall.
    pub open spec fn is_cycle(self, p: Seq<Pos>) -> bool {
        &&& p.len() >= 3
        &&& forall|i: int| 0 <= i < p.len() ==> self.in_grid(#[trigger] p[i])
        &&& forall|i: int| 0 <= i < p.len() - 1 ==> self.open_between(#[trigger] p[i], p[i + 1])
        &&& self.open_between(p[p.len() - 1], p[0])
        &&& forall|i: int, j: int| 0 <= i < j < p.len() ==> #[trigger] p[i] != #[trigger] p[j]
    }

    /// The whole invariant of a maze under construction.
    pub open spec fn inv(self) -> bool {
        &&& self.shaped()
        &&& self.in_grid(self.active)
        &&& self.borders_stand()
        &&& self.cleared_between_visited()
        &&& self.path_carved()
        &&& self.off_path_finished()
        &&& self.connected()
        &&& self.has_tree_depths()
        &&& self.stack.len() == 0 && !self.completed ==> self.nothing_visited() && self.visited_count() == 0
            && self.cleared() == 0
        &&& self.stack.len() > 0 || self.completed ==> self.cleared() + 1 == self.visited_count()
        &&& self.completed ==> self.stack.len() == 0 && self.all_visited()
    }
}

} // verus!

verus! {

/// Visited-ness spreads along row `y` from a visited cell other than the origin.
proof fn lemma_spread_row(s: MazeState, x: int, y: int, x2: int)
    requires
        s.shaped(),
        s.off_path_finished(),
        s.path() == seq![origin()],
        s.in_grid((x, y)),
        0 <= x2 < s.width,
        s.is_visited((x, y)),
        (x, y) != origin(),
    ensures
        s.is_visited((x2, y)),
    decreases if x2 >= x { x2 - x } else { x - x2 },
{
    reveal(MazeState::off_path_finished);
    if x2 != x {
        assert(!s.path().contains((x, y)));
        assert(s.dead_end((x, y)));
        if x2 > x {
            lemma_spread_row(s, x + 1, y, x2);
        } else if x - 1 != x2 {
            lemma_spread_row(s, x - 1, y, x2);
        }
    }
}

/// Visited-ness spreads along column `x` from a visited cell other than the origin.
proof fn lemma_spread_col(s: MazeState, x: int, y: int, y2: int)
    requires
        s.shaped(),
        s.off_path_finished(),
        s.path() == seq![origin()],
        s.in_grid((x, y)),
        0 <= y2 < s.height,
        s.is_visited((x, y)),
        (x, y) != origin(),
    ensures
        s.is_visited((x, y2)),
    decreases if y2 >= y { y2 - y } else { y - y2 },
{
    reveal(MazeState::off_path_finished);
    if y2 != y {
        assert(!s.path().contains((x, y)));
        assert(s.dead_end((x, y)));
        if y2 > y {
            lemma_spread_col(s, x, y + 1, y2);
        } else if y - 1 != y2 {
            lemma_spread_col(s, x, y - 1, y2);
        }
    }
}

/// Once the path is back to the bare origin, one visited cell besides the
/// origin means that every cell is visited.
proof fn lemma_fill(s: MazeState, v: Pos)
    requires
        s.shaped(),
        s.off_path_finished(),
        s.path() == seq![origin()],
        s.in_grid(v),
        s.is_visited(v),
        v != origin(),
    ensures
        s.all_visited(),
{
    assert forall|x: int, y: int| 0 <= x < s.width && 0 <= y < s.height implies #[trigger] s.visited[x][y] by {
        if v.1 >= 1 {
            lemma_spread_row(s, v.0, v.1, x);
            lemma_spread_col(s, x, v.1, y);
        } else {
            lemma_spread_col(s, v.0, v.1, y);
            lemma_spread_row(s, v.0, y, x);
        }
    }
}

proof fn lemma_backtrack_path(s: MazeState)
    requires
        s.path_carved(),
        s.stack.len() > 0,
    ensures
        s.backtracked().path_carved(),
{
    reveal(MazeState::path_carved);
    let t = s.backtracked();
    let sp = s.path();
    let tp = t.path();
    assert(tp =~= s.stack);
    assert forall|i: int| 0 <= i < tp.len() implies #[trigger] tp[i] == sp[i] by {}
    assert forall|i: int| 0 <= i < tp.len() - 1 implies t.open_between(#[trigger] tp[i], tp[i + 1]) by {
        assert(s.open_between(sp[i], sp[i + 1]));
    }
    assert forall|i: int| 0 <= i < tp.len() implies t.in_grid(#[trigger] tp[i]) by {
        assert(s.in_grid(sp[i]));
    }
    assert forall|i: int, j: int| 0 <= i < j < tp.len() implies #[trigger] tp[i] != #[trigger] tp[j] by {
        assert(sp[i] != sp[j]);
    }
    assert forall|i: int| 0 <= i < tp.len() implies t.is_visited(#[trigger] tp[i]) by {
        assert(s.is_visited(sp[i]));
    }
}

proof fn lemma_backtrack_finished(s: MazeState)
    requires
        s.off_path_finished(),
        s.stack.len() > 0,
        s.dead_end(s.active),
    ensures
        s.backtracked().off_path_finished(),
{
    reveal(MazeState::off_path_finished);
    let t = s.backtracked();
    assert(s.path() =~= t.path().push(s.active));
    assert forall|x: int, y: int|
        0 <= x < t.width && 0 <= y < t.height && #[trigger] t.visited[x][y]
            && !t.path().contains((x, y)) implies t.dead_end((x, y)) by {
        if (x, y) != s.active {
            assert(!s.path().contains((x, y))) by {
                if s.path().contains((x, y)) {
                    let k = choose|k: int| 0 <= k < s.path().len() && s.path()[k] == (x, y);
                    assert(t.path()[k] == (x, y));
                }
            }
        }
    }
}

proof fn lemma_backtrack_inv(s: MazeState)
    requires
        s.inv(),
        s.dead_end(s.active),
    ensures
        s.backtracked().inv(),
{
    if s.stack.len() > 0 {
        let t = s.backtracked();
        let p = s.stack.last();
        assert(!s.completed);
        lemma_backtrack_path(s);
        lemma_backtrack_finished(s);
        assert(s.stack.len() == 1 ==> p == origin()) by {
            reveal(MazeState::path_carved);
            assert(s.path()[0] == s.stack[0]);
        }
        assert(t.borders_stand() && t.cleared_between_visited()) by {
            reveal(MazeState::borders_stand);
            reveal(MazeState::cleared_between_visited);
        }
        assert(t.has_tree_depths()) by {
            reveal(MazeState::has_tree_depths);
            let dep = choose|dep: spec_fn(Pos) -> nat| s.tree_depths(dep);
            assert forall|p: Pos, q: Pos| #[trigger] t.open_between(p, q) == s.open_between(p, q) by {}
            assert forall|p: Pos| #[trigger] t.in_grid(p) == s.in_grid(p) by {}
            assert(t.tree_depths(dep));
        }
        assert(t.connected()) by {
            reveal(MazeState::connected);
            assert forall|x: int, y: int|
                0 <= x < t.width && 0 <= y < t.height && #[trigger] t.visited[x][y]
                    implies exists|p: Seq<Pos>| t.carved_walk(p) && p[0] == origin() && p.last() == (x, y) by {
                let p = choose|p: Seq<Pos>| s.carved_walk(p) && p[0] == origin() && p.last() == (x, y);
                assert(t.carved_walk(p));
            }
        }
        if p == origin() {
            assert(s.stack.len() == 1) by {
                reveal(MazeState::path_carved);
                assert(s.path()[s.stack.len() - 1] == p);
            }
            assert(t.path() =~= seq![origin()]);
            assert(s.in_grid(s.active) && s.is_visited(s.active) && s.active != origin()) by {
                reveal(MazeState::path_carved);
                assert(s.path()[1] == s.active);
            }
            lemma_fill(t, s.active);
        }
        assert(s.in_grid(p)) by {
            reveal(MazeState::path_carved);
            assert(s.path()[s.stack.len() - 1] == p);
        }
    }
}

/// The cells and walls after a carve.
proof fn lemma_carve_grids(s: MazeState, d: Direction)
    requires
        s.shaped(),
        s.in_grid(s.active),
        s.in_grid(moved(s.active, d)),
    ensures
        ({
            let a = s.active;
            let n = moved(a, d);
            let t = s.carved(d, n);
            &&& t.shaped()
            &&& t.is_visited(a) && t.is_visited(n)
            &&& forall|x: int, y: int| 0 <= x < s.width && 0 <= y < s.height && (x, y) != a && (x, y) != n
                    ==> #[trigger] t.visited[x][y] == s.visited[x][y]
        }),
{
    let a = s.active;
    let n = moved(a, d);
    let t = s.carved(d, n);
    assert forall|x: int| 0 <= x < t.width implies #[trigger] t.visited[x].len() == t.height by {
        assert(s.visited[x].len() == s.height);
    }
    assert forall|x: int| 0 <= x < t.width implies #[trigger] t.vertical_walls[x].len() == t.height by {
        assert(s.vertical_walls[x].len() == s.height);
    }
    assert forall|x: int| 0 <= x < t.width implies #[trigger] t.horizontal_walls[x].len() == t.height by {
        assert(s.horizontal_walls[x].len() == s.height);
    }
}

proof fn lemma_carve_walls(s: MazeState, d: Direction)
    requires
        s.shaped(),
        s.borders_stand(),
        s.cleared_between_visited(),
        s.in_grid(s.active),
        s.in_grid(moved(s.active, d)),
        !s.is_visited(moved(s.active, d)),
    ensures
        ({
            let a = s.active;
            let n = moved(a, d);
            let t = s.carved(d, n);
            &&& t.borders_stand()
            &&& t.cleared_between_visited()
            &&& t.open_between(a, n)
            &&& forall|p: Pos, q: Pos| s.in_grid(p) && s.in_grid(q) && #[trigger] s.open_between(p, q) ==> t.open_between(p, q)
            &&& match d {
                Direction::East => s.vertical_walls[n.0][n.1],
                Direction::West => s.vertical_walls[a.0][a.1],
                Direction::South => s.horizontal_walls[n.0][n.1],
                Direction::North => s.horizontal_walls[a.0][a.1],
            }
        }),
{
    reveal(MazeState::borders_stand);
    reveal(MazeState::cleared_between_visited);
    let a = s.active;
    let n = moved(a, d);
    let t = s.carved(d, n);
    lemma_carve_grids(s, d);
    assert forall|x: int, y: int| 0 <= x < s.width && 0 <= y < s.height && #[trigger] s.visited[x][y] implies t.visited[x][y] by {
        if (x, y) != a && (x, y) != n {
            assert(t.visited[x][y] == s.visited[x][y]);
        }
    }
    match d {
        Direction::East => { assert(s.vertical_walls[n.0][n.1]); },
        Direction::West => { assert(s.vertical_walls[a.0][a.1]); },
        Direction::South => { assert(s.horizontal_walls[n.0][n.1]); },
        Direction::North => { assert(s.horizontal_walls[a.0][a.1]); },
    }
    assert forall|y: int| 0 <= y < t.height implies #[trigger] t.vertical_walls[0][y] by {
        assert(s.vertical_walls[0][y]);
    }
    assert forall|x: int| 0 <= x < t.width implies #[trigger] t.horizontal_walls[x][0] by {
        assert(s.horizontal_walls[x][0]);
    }
}

proof fn lemma_carve_path(s: MazeState, d: Direction)
    requires
        s.inv(),
        s.in_grid(moved(s.active, d)),
        !s.is_visited(moved(s.active, d)),
    ensures
        s.carved(d, moved(s.active, d)).path_carved(),
        s.carved(d, moved(s.active, d)).off_path_finished(),
{
    let a = s.active;
    let n = moved(a, d);
    let t = s.carved(d, n);
    let sp = s.path();
    let tp = t.path();
    assert(tp =~= sp.push(n));
    assert(s.in_grid(a)) by {
        reveal(MazeState::path_carved);
        assert(sp[sp.len() - 1] == a);
    }
    lemma_carve_grids(s, d);
    lemma_carve_walls(s, d);
    assert(t.path_carved()) by {
        reveal(MazeState::path_carved);
        assert forall|i: int| 0 <= i < tp.len() - 1 implies t.open_between(#[trigger] tp[i], tp[i + 1]) by {
            if i < sp.len() - 1 {
                assert(s.open_between(sp[i], sp[i + 1]));
                assert(s.in_grid(sp[i]) && s.in_grid(sp[i + 1]));
            }
        }
        assert forall|i: int| 0 <= i < tp.len() implies t.in_grid(#[trigger] tp[i]) by {
            if i < sp.len() {
                assert(s.in_grid(sp[i]));
            }
        }
        assert forall|i: int, j: int| 0 <= i < j < tp.len() implies #[trigger] tp[i] != #[trigger] tp[j] by {
            if j < sp.len() {
                assert(sp[i] != sp[j]);
            } else if s.stack.len() > 0 {
                assert(s.is_visited(sp[i]));
            }
        }
        assert forall|i: int| 0 <= i < tp.len() implies t.is_visited(#[trigger] tp[i]) by {
            if i < sp.len() && s.stack.len() > 0 {
                assert(s.is_visited(sp[i]));
                assert(s.in_grid(sp[i]));
            }
        }
        assert(tp[0] == sp[0]);
    }
    assert(t.off_path_finished()) by {
        reveal(MazeState::off_path_finished);
        assert forall|x: int, y: int|
            0 <= x < t.width && 0 <= y < t.height && #[trigger] t.visited[x][y]
                && !t.path().contains((x, y)) implies t.dead_end((x, y)) by {
            assert(tp[tp.len() - 1] == n);
            assert(tp[tp.len() - 2] == a);
            assert(!s.path().contains((x, y))) by {
                if s.path().contains((x, y)) {
                    let k = choose|k: int| 0 <= k < sp.len() && sp[k] == (x, y);
                    assert(tp[k] == (x, y));
                }
            }
            assert(s.visited[x][y]);
            assert(s.dead_end((x, y)));
            let p = (x, y);
            if s.in_grid((p.0, p.1 - 1)) { assert(s.is_visited((p.0, p.1 - 1))); }
            if s.in_grid((p.0, p.1 + 1)) { assert(s.is_visited((p.0, p.1 + 1))); }
            if s.in_grid((p.0 - 1, p.1)) { assert(s.is_visited((p.0 - 1, p.1))); }
            if s.in_grid((p.0 + 1, p.1)) { assert(s.is_visited((p.0 + 1, p.1))); }
        }
    }
}

proof fn lemma_carve_connected(s: MazeState, d: Direction)
    requires
        s.inv(),
        s.in_grid(moved(s.active, d)),
        !s.is_visited(moved(s.active, d)),
    ensures
        s.carved(d, moved(s.active, d)).connected(),
{
    let a = s.active;
    let n = moved(a, d);
    let t = s.carved(d, n);
    let tp = t.path();
    lemma_carve_grids(s, d);
    lemma_carve_walls(s, d);
    lemma_carve_path(s, d);
    assert(t.carved_walk(tp) && tp[0] == origin() && tp.last() == n) by {
        reveal(MazeState::path_carved);
    }
    let ap = tp.drop_last();
    assert(t.carved_walk(ap) && ap[0] == origin() && ap.last() == a) by {
        assert(tp =~= s.path().push(n));
        assert forall|i: int| 0 <= i < ap.len() - 1 implies t.open_between(#[trigger] ap[i], ap[i + 1]) by {
            assert(t.open_between(tp[i], tp[i + 1]));
        }
        assert forall|i: int| 0 <= i < ap.len() implies t.in_grid(#[trigger] ap[i]) by {
            assert(t.in_grid(tp[i]));
        }
    }
    reveal(MazeState::connected);
    assert forall|x: int, y: int|
        0 <= x < t.width && 0 <= y < t.height && #[trigger] t.visited[x][y]
            implies exists|p: Seq<Pos>| t.carved_walk(p) && p[0] == origin() && p.last() == (x, y) by {
        if (x, y) == n {
            assert(t.carved_walk(tp) && tp[0] == origin() && tp.last() == (x, y));
        } else if (x, y) == a {
            assert(t.carved_walk(ap) && ap[0] == origin() && ap.last() == (x, y));
        } else {
            assert(s.visited[x][y]);
            let p = choose|p: Seq<Pos>| s.carved_walk(p) && p[0] == origin() && p.last() == (x, y);
            assert forall|i: int| 0 <= i < p.len() - 1 implies t.open_between(#[trigger] p[i], p[i + 1]) by {
                assert(s.open_between(p[i], p[i + 1]));
                assert(s.in_grid(p[i]) && s.in_grid(p[i + 1]));
            }
            assert(t.carved_walk(p));
        }
    }
}

/// Walls cleared before a carve, plus the carved one, are all that a carve leaves cleared.
proof fn lemma_carve_open_exact(s: MazeState, d: Direction)
    requires
        s.shaped(),
        s.cleared_between_visited(),
        s.in_grid(s.active),
        s.in_grid(moved(s.active, d)),
        !s.is_visited(moved(s.active, d)),
    ensures
        ({
            let a = s.active;
            let n = moved(a, d);
            let t = s.carved(d, n);
            &&& forall|p: Pos, q: Pos| s.in_grid(p) && s.in_grid(q) && #[trigger] t.open_between(p, q)
                ==> (p == a && q == n) || (p == n && q == a) || (s.open_between(p, q) && p != n && q != n)
        }),
{
    reveal(MazeState::cleared_between_visited);
    let a = s.active;
    let n = moved(a, d);
    let t = s.carved(d, n);
    assert forall|p: Pos, q: Pos| s.in_grid(p) && s.in_grid(q) && #[trigger] t.open_between(p, q)
        implies (p == a && q == n) || (p == n && q == a) || (s.open_between(p, q) && p != n && q != n) by {
        if !((p == a && q == n) || (p == n && q == a)) {
            assert(s.open_between(p, q));
            if p == n || q == n {
                assert(s.visited[p.0][p.1] && s.visited[q.0][q.1]);
            }
        }
    }
}

proof fn lemma_carve_depths(s: MazeState, d: Direction)
    requires
        s.inv(),
        s.in_grid(moved(s.active, d)),
        !s.is_visited(moved(s.active, d)),
    ensures
        s.carved(d, moved(s.active, d)).has_tree_depths(),
{
    let a = s.active;
    let n = moved(a, d);
    let t = s.carved(d, n);
    lemma_carve_open_exact(s, d);
    reveal(MazeState::has_tree_depths);
    let dep = choose|dep: spec_fn(Pos) -> nat| s.tree_depths(dep);
    let dep2 = |c: Pos| if c == n { dep(a) + 1 } else { dep(c) };
    assert(a != n);
    assert(n != origin()) by {
        reveal(MazeState::path_carved);
        assert(s.path()[0] == origin());
        if s.stack.len() == 0 {
            assert(s.path()[0] == a);
        }
    }
    assert forall|p: Pos, q: Pos| t.in_grid(p) && t.in_grid(q) && #[trigger] t.open_between(p, q)
        implies dep2(q) == dep2(p) + 1 || dep2(p) == dep2(q) + 1 by {
        if !((p == a && q == n) || (p == n && q == a)) {
            assert(s.open_between(p, q));
        }
    }
    assert forall|p: Pos, q: Pos, r: Pos|
        t.in_grid(p) && t.in_grid(q) && t.in_grid(r) && #[trigger] t.open_between(p, q)
            && #[trigger] t.open_between(p, r) && dep2(q) < dep2(p) && dep2(r) < dep2(p) implies q == r by {
        if p == n {
            assert(q == a);
            assert(r == a);
        } else {
            assert(s.open_between(p, q) && q != n);
            assert(s.open_between(p, r) && r != n);
        }
    }
    assert(t.tree_depths(dep2));
}

proof fn lemma_carve_inv(s: MazeState, d: Direction)
    requires
        s.inv(),
        s.in_grid(moved(s.active, d)),
        !s.dead_end(s.active),
        !s.is_visited(moved(s.active, d)),
    ensures
        s.carved(d, moved(s.active, d)).inv(),
{
    let a = s.active;
    let n = moved(a, d);
    let t = s.carved(d, n);
    let v1 = set2(s.visited, a, true);
    assert(s.in_grid(a) && (s.stack.len() > 0 ==> s.is_visited(a))) by {
        reveal(MazeState::path_carved);
        assert(s.path()[s.path().len() - 1] == a);
    }
    assert(!s.completed);
    lemma_carve_grids(s, d);
    lemma_carve_walls(s, d);
    lemma_carve_path(s, d);
    lemma_carve_connected(s, d);
    lemma_carve_depths(s, d);
    crate::grid::lemma_grid_count_update(s.visited, a, true, true);
    crate::grid::lemma_grid_count_update(v1, n, true, true);
    match d {
        Direction::East => { crate::grid::lemma_grid_count_update(s.vertical_walls, n, false, false); },
        Direction::West => { crate::grid::lemma_grid_count_update(s.vertical_walls, a, false, false); },
        Direction::South => { crate::grid::lemma_grid_count_update(s.horizontal_walls, n, false, false); },
        Direction::North => { crate::grid::lemma_grid_count_update(s.horizontal_walls, a, false, false); },
    }
    if s.stack.len() == 0 {
        assert(!s.visited[a.0][a.1]);
    }
}

impl MazeState {
    /// A freshly built maze satisfies the invariant.
    pub proof fn lemma_initial_inv(width: int, height: int)
        requires
            1 <= width <= i32::MAX,
            1 <= height <= i32::MAX,
        ensures
            MazeState::initial(width, height).inv(),
    {
        let s = MazeState::initial(width, height);
        assert(s.path() =~= seq![origin()]);
        assert(s.borders_stand()) by {
            reveal(MazeState::borders_stand);
        }
        assert(s.cleared_between_visited()) by {
            reveal(MazeState::cleared_between_visited);
        }
        assert(s.path_carved()) by {
            reveal(MazeState::path_carved);
        }
        assert(s.off_path_finished()) by {
            reveal(MazeState::off_path_finished);
        }
        assert(s.connected()) by {
            reveal(MazeState::connected);
        }
        assert(s.has_tree_depths()) by {
            reveal(MazeState::has_tree_depths);
            assert(s.tree_depths(|c: Pos| 0nat));
        }
        crate::grid::lemma_grid_count_none(s.visited, true);
        crate::grid::lemma_grid_count_none(s.vertical_walls, false);
        crate::grid::lemma_grid_count_none(s.horizontal_walls, false);
    }

    /// Every step keeps the invariant, and a completed maze is a fixed point.
    pub proof fn lemma_step_inv(self, d: Direction)
        requires
            self.inv(),
        ensures
            self.step(d).0.inv(),
            self.completed ==> self.step(d).0 == self && !self.step(d).1,
    {
        let n = moved(self.active, d);
        if self.in_grid(n) {
            if self.dead_end(self.active) {
                lemma_backtrack_inv(self);
            } else if !self.is_visited(n) {
                lemma_carve_inv(self, d);
            }
        }
    }
}

} // verus!
