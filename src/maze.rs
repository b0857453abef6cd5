use vstd::prelude::*;
use rand::Rng;
use crate::grid::{Pos, grid_view, set2, set_flag, get_flag, filled_grid};
use crate::model::{Direction, MazeState, moved};

verus! {

/// A grid position `(x, y)`.
pub type Position = (i32, i32);

pub open spec fn pos_view(p: Position) -> Pos {
    (p.0 as int, p.1 as int)
}

/// One cell as the row-major traversal reports it.
#[derive(Clone, Copy, Debug, PartialEq, Eq)]
pub struct Cell {
    pub x: i32,
    pub y: i32,
    pub visited: bool,
}

/// A maze under construction, advanced one step at a time.
pub struct Maze {
    width: i32,
    height: i32,
    cells: Vec<Vec<bool>>,
    horizontal_walls: Vec<Vec<bool>>,
    vertical_walls: Vec<Vec<bool>>,
    active_position: Position,
    completed: bool,
    stack: Vec<Position>,
}

impl View for Maze {
    type V = MazeState;

    closed spec fn view(&self) -> MazeState {
        MazeState {
            width: self.width as int,
            height: self.height as int,
            visited: grid_view(self.cells@),
            vertical_walls: grid_view(self.vertical_walls@),
            horizontal_walls: grid_view(self.horizontal_walls@),
            active: pos_view(self.active_position),
            stack: self.stack@.map_values(|p: Position| pos_view(p)),
            completed: self.completed,
        }
    }
}

impl Direction {
    /// The direction that a draw `n` in `0..4` stands for.
    pub fn from_index(n: u32) -> (d: Direction)
        requires
            n < 4,
        ensures
            n == 0 ==> d == Direction::East,
            n == 1 ==> d == Direction::West,
            n == 2 ==> d == Direction::South,
            n == 3 ==> d == Direction::North,
    {
        if n == 0 {
            Direction::East
        } else if n == 1 {
            Direction::West
        } else if n == 2 {
            Direction::South
        } else {
            Direction::North
        }
    }

    /// The offset `(dx, dy)` of the move.
    pub fn offset(&self) -> (r: Position)
        ensures
            pos_view(r) == self.delta(),
    {
        match self {
            Direction::North => (0, -1),
            Direction::South => (0, 1),
            Direction::East => (1, 0),
            Direction::West => (-1, 0),
        }
    }
}

/// Relies on rand's `thread_rng().gen_range(0..4)`: a value in `0..4`.
#[verifier::external_body]
fn random_index() -> (r: u32)
    ensures
        r < 4,
{
    rand::thread_rng().gen_range(0..4)
}

impl Maze {
    /// The maze invariant: see `MazeState::inv`.
    pub open spec fn wf(&self) -> bool {
        self@.inv()
    }

    /// A `width` by `height` maze: nothing visited, every wall standing, the
    /// active position at the origin, an empty stack, not completed.
    pub fn new(width: i32, height: i32) -> (m: Self)
        requires
            width > 0,
            height > 0,
        ensures
            m@ == MazeState::initial(width as int, height as int),
            m.wf(),
    {
        let cells = filled_grid(width as usize, height as usize, false);
        let horizontal_walls = filled_grid(width as usize, height as usize, true);
        let vertical_walls = filled_grid(width as usize, height as usize, true);
        let m = Maze {
            width,
            height,
            cells,
            active_position: (0, 0),
            stack: Vec::new(),
            horizontal_walls,
            vertical_walls,
            completed: false,
        };
        proof {
            let i = MazeState::initial(width as int, height as int);
            assert(m@.visited =~~= i.visited);
            assert(m@.vertical_walls =~~= i.vertical_walls);
            assert(m@.horizontal_walls =~~= i.horizontal_walls);
            assert(m@.stack =~= i.stack);
            MazeState::lemma_initial_inv(width as int, height as int);
        }
        m
    }

    pub fn width(&self) -> (r: i32)
        ensures
            r == self@.width,
    {
        self.width
    }

    pub fn height(&self) -> (r: i32)
        ensures
            r == self@.height,
    {
        self.height
    }

    pub fn active_position(&self) -> (r: Position)
        ensures
            pos_view(r) == self@.active,
    {
        self.active_position
    }

    pub fn is_completed(&self) -> (r: bool)
        ensures
            r == self@.completed,
    {
        self.completed
    }

    /// Number of positions on the backtrack stack.
    pub fn stack_len(&self) -> (r: usize)
        ensures
            r == self@.stack.len(),
    {
        self.stack.len()
    }

    /// Whether the wall between `(x - 1, y)` and `(x, y)` stands; for `x == 0`
    /// that is the outer border, which always stands.
    pub fn vertical_wall(&self, pos: Position) -> (r: bool)
        requires
            self@.shaped(),
            self@.in_grid(pos_view(pos)),
        ensures
            r == self@.vertical_walls[pos.0 as int][pos.1 as int],
    {
        get_flag(&self.vertical_walls, pos.0 as usize, pos.1 as usize)
    }

    /// Whether the wall between `(x, y - 1)` and `(x, y)` stands; for `y == 0`
    /// that is the outer border, which always stands.
    pub fn horizontal_wall(&self, pos: Position) -> (r: bool)
        requires
            self@.shaped(),
            self@.in_grid(pos_view(pos)),
        ensures
            r == self@.horizontal_walls[pos.0 as int][pos.1 as int],
    {
        get_flag(&self.horizontal_walls, pos.0 as usize, pos.1 as usize)
    }

    /// A row-major traversal of every cell, starting at the origin.
    pub fn iter(&self) -> (it: MazeIterator)
        requires
            self.wf(),
        ensures
            it.maze() == self,
            it.x() == 0 && it.y() == 0,
            it.wf(),
    {
        MazeIterator::new(self)
    }

    pub fn is_visited(&self, pos: Position) -> (r: bool)
        requires
            self@.shaped(),
            self@.in_grid(pos_view(pos)),
        ensures
            r == self@.is_visited(pos_view(pos)),
    {
        get_flag(&self.cells, pos.0 as usize, pos.1 as usize)
    }

    /// Sets the visited flag of `pos`, leaving everything else as it was.
    pub fn set_visited(&mut self, pos: Position, visited: bool)
        requires
            old(self)@.shaped(),
            old(self)@.in_grid(pos_view(pos)),
        ensures
            final(self)@ == (MazeState {
                visited: set2(old(self)@.visited, pos_view(pos), visited),
                ..old(self)@
            }),
    {
        set_flag(&mut self.cells, pos.0 as usize, pos.1 as usize, visited);
    }

    fn pick_random_direction(&self) -> Direction {
        Direction::from_index(random_index())
    }

    fn outside_grid(&self, point: Position) -> (r: bool)
        requires
            self@.shaped(),
        ensures
            r == !self@.in_grid(pos_view(point)),
    {
        point.0 < 0 || point.0 > self.width - 1 || point.1 < 0 || point.1 > self.height - 1
    }

    fn is_dead_end(&self, point: Position) -> (r: bool)
        requires
            self@.shaped(),
            self@.in_grid(pos_view(point)),
        ensures
            r == self@.dead_end(pos_view(point)),
    {
        let up = (point.0, point.1 - 1);
        let down = (point.0, point.1 + 1);
        let left = (point.0 - 1, point.1);
        let right = (point.0 + 1, point.1);
        (self.outside_grid(up) || self.is_visited(up))
            && (self.outside_grid(down) || self.is_visited(down))
            && (self.outside_grid(left) || self.is_visited(left))
            && (self.outside_grid(right) || self.is_visited(right))
    }

    fn backtrack(&mut self)
        requires
            old(self)@.shaped(),
        ensures
            final(self)@ == old(self)@.backtracked(),
    {
        if let Some(pos) = self.stack.pop() {
            self.active_position = pos;
            if pos.0 == 0 && pos.1 == 0 {
                self.completed = true;
            }
            proof {
                assert(self@.stack =~= old(self)@.stack.drop_last());
            }
        }
    }

    /// One step of the carving algorithm with the drawn direction `dir`.
    /// Returns whether a wall was cleared.
    pub fn step(&mut self, dir: Direction) -> (advanced: bool)
        requires
            old(self).wf(),
        ensures
            final(self).wf(),
            (final(self)@, advanced) == old(self)@.step(dir),
            old(self)@.completed ==> final(self)@ == old(self)@,
            old(self)@.completed ==> final(self)@.completed,
    {
        proof {
            self@.lemma_step_inv(dir);
        }
        let d = dir.offset();
        let next_cell = (self.active_position.0 + d.0, self.active_position.1 + d.1);
        assert(pos_view(next_cell) == moved(self@.active, dir));
        if self.outside_grid(next_cell) {
            false
        } else if self.is_dead_end(self.active_position) {
            self.backtrack();
            false
        } else if !self.is_visited(next_cell) {
            let ghost s = self@;
            let a = self.active_position;
            self.set_visited(a, true);
            self.set_visited(next_cell, true);
            match dir {
                Direction::East => {
                    set_flag(&mut self.vertical_walls, next_cell.0 as usize, next_cell.1 as usize, false);
                },
                Direction::West => {
                    set_flag(&mut self.vertical_walls, a.0 as usize, a.1 as usize, false);
                },
                Direction::South => {
                    set_flag(&mut self.horizontal_walls, next_cell.0 as usize, next_cell.1 as usize, false);
                },
                Direction::North => {
                    set_flag(&mut self.horizontal_walls, a.0 as usize, a.1 as usize, false);
                },
            }
            self.stack.push(a);
            self.active_position = next_cell;
            proof {
                assert(self@.stack =~= s.stack.push(s.active));
                assert(self@ == s.carved(dir, moved(s.active, dir)));
            }
            true
        } else {
            false
        }
    }

    /// One step of the carving algorithm with a direction drawn uniformly at
    /// random. Returns whether a wall was cleared.
    pub fn generate_next(&mut self) -> (advanced: bool)
        requires
            old(self).wf(),
        ensures
            final(self).wf(),
            exists|d: Direction| (final(self)@, advanced) == #[trigger] old(self)@.step(d),
            old(self)@.completed ==> final(self)@ == old(self)@,
    {
        let dir = self.pick_random_direction();
        self.step(dir)
    }
}

/// A row-major traversal of the cells of a maze.
pub struct MazeIterator<'a> {
    maze: &'a Maze,
    x: i32,
    y: i32,
}

impl<'a> MazeIterator<'a> {
    pub closed spec fn maze(&self) -> &'a Maze {
        self.maze
    }

    /// Column of the next cell.
    pub closed spec fn x(&self) -> int {
        self.x as int
    }

    /// Row of the next cell; the height once the traversal is over.
    pub closed spec fn y(&self) -> int {
        self.y as int
    }

    pub open spec fn wf(&self) -> bool {
        &&& self.maze().wf()
        &&& 0 <= self.x() < self.maze()@.width
        &&& 0 <= self.y() <= self.maze()@.height
    }

    pub fn new(maze: &'a Maze) -> (it: Self)
        requires
            maze.wf(),
        ensures
            it.maze() == maze,
            it.x() == 0 && it.y() == 0,
            it.wf(),
    {
        MazeIterator { maze, x: 0, y: 0 }
    }

    /// The cell at the current position, then a move to the next position in
    /// row-major order; `None` once every row has been reported.
    pub fn next(&mut self) -> (r: Option<Cell>)
        requires
            old(self).wf(),
        ensures
            final(self).wf(),
            final(self).maze() == old(self).maze(),
            old(self).y() >= old(self).maze()@.height ==> r is None && *final(self) == *old(self),
            old(self).y() < old(self).maze()@.height ==> {
                &&& r == Some(Cell {
                    x: old(self).x() as i32,
                    y: old(self).y() as i32,
                    visited: old(self).maze()@.is_visited((old(self).x(), old(self).y())),
                })
                &&& old(self).x() + 1 < old(self).maze()@.width ==> final(self).x() == old(self).x() + 1
                    && final(self).y() == old(self).y()
                &&& old(self).x() + 1 >= old(self).maze()@.width ==> final(self).x() == 0
                    && final(self).y() == old(self).y() + 1
            },
    {
        if self.maze.outside_grid((self.x, self.y)) {
            return None;
        }
        let return_value = Some(
            Cell { x: self.x, y: self.y, visited: self.maze.is_visited((self.x, self.y)) },
        );
        self.x = self.x + 1;
        if self.x > self.maze.width - 1 {
            self.x = 0;
            self.y = self.y + 1;
        }
        return_value
    }
}

} // verus!
