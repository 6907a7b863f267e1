//! The square grid: its locations, their neighbours, and the cells that have a colour.

use crate::color::Color;
use std::collections::HashMap;
use vstd::arithmetic::div_mod::*;
use vstd::prelude::*;
use vstd::std_specs::hash::*;

verus! {

/// A place on the grid.
#[derive(Clone, Copy, Debug, PartialEq, Eq, Structural)]
pub struct Location {
    pub row: usize,
    pub col: usize,
}

/// The four ways to a neighbour, in the order in which growth tries them.
#[derive(Clone, Copy, Debug, PartialEq, Eq, Structural)]
pub enum Direction {
    Up,
    Left,
    Down,
    Right,
}

/// The largest side that a grid can have: sides are image widths.
pub const MAX_SIDE: usize = 0xFFFF_FFFF;

/// `(row, col)` lies on a grid of the given side.
pub open spec fn in_bounds(size: usize, row: int, col: int) -> bool {
    0 <= row < size && 0 <= col < size
}

/// The number of the cell at `(row, col)`, counting row after row.
pub open spec fn cell_of(size: usize, row: int, col: int) -> usize {
    (row * size + col) as usize
}

/// The location of the cell with the given number.
pub open spec fn location_of(size: usize, cell: usize) -> Location {
    Location { row: cell / size, col: cell % size }
}

/// One step from `from` in the direction `dir`, which may lead off the grid.
pub open spec fn toward(from: Location, dir: Direction) -> (int, int) {
    match dir {
        Direction::Up => (from.row - 1, from.col as int),
        Direction::Left => (from.row as int, from.col - 1),
        Direction::Down => (from.row + 1, from.col as int),
        Direction::Right => (from.row as int, from.col + 1),
    }
}

/// The point at offset `k` on one of the four arms of the star around `(row, col)`: along
/// the row, along the column, and along the two diagonals.
pub open spec fn star(row: int, col: int, k: int, arm: int) -> (int, int) {
    if arm == 0 {
        (row, col + k)
    } else if arm == 1 {
        (row + k, col)
    } else if arm == 2 {
        (row + k, col + k)
    } else {
        (row - k, col + k)
    }
}

/// `(row, col)` lies on the grid and has no colour yet.
pub open spec fn vacant(cells: Map<usize, Color>, size: usize, row: int, col: int) -> bool {
    in_bounds(size, row, col) && !cells.contains_key(cell_of(size, row, col))
}

/// One of the four star points at offset `k` around `(row, col)` is vacant.
pub open spec fn ring_vacant(
    cells: Map<usize, Color>,
    size: usize,
    row: int,
    col: int,
    k: int,
) -> bool {
    exists|arm: int|
        0 <= arm < 4 && #[trigger] vacant(
            cells,
            size,
            star(row, col, k, arm).0,
            star(row, col, k, arm).1,
        )
}

/// Some star point around `(row, col)`, at an offset from `-smoothing` to `smoothing`, is
/// vacant.
pub open spec fn gate_open(
    cells: Map<usize, Color>,
    size: usize,
    smoothing: usize,
    row: int,
    col: int,
) -> bool {
    exists|k: int| -smoothing <= k <= smoothing && #[trigger] ring_vacant(cells, size, row, col, k)
}

/// The cells with `color` at `cell`: set where the cell had none, blended in where it had
/// one.
pub open spec fn committed(cells: Map<usize, Color>, cell: usize, color: Color) -> Map<
    usize,
    Color,
> {
    if cells.contains_key(cell) {
        cells.insert(cell, cells[cell].blended(color))
    } else {
        cells.insert(cell, color)
    }
}

/// The cells of a grid are numbered below the square of its side.
pub proof fn lemma_cell_bound(size: usize, row: int, col: int)
    requires
        in_bounds(size, row, col),
    ensures
        0 <= row * size + col < size * size,
{
    assert(row * size + col < size * size) by (nonlinear_arith)
        requires
            0 <= row < size,
            0 <= col < size,
    ;
    assert(0 <= row * size) by (nonlinear_arith)
        requires
            0 <= row,
            0 <= size,
    ;
}

/// Every cell number below the square of the side is that of a location on the grid.
pub proof fn lemma_location_round_trip(size: usize, cell: usize)
    requires
        size > 0,
        cell < size * size,
    ensures
        in_bounds(size, location_of(size, cell).row as int, location_of(size, cell).col as int),
        cell_of(size, location_of(size, cell).row as int, location_of(size, cell).col as int)
            == cell,
{
    lemma_fundamental_div_mod(cell as int, size as int);
    lemma_mod_pos_bound(cell as int, size as int);
    let q = cell as int / size as int;
    assert(q < size) by (nonlinear_arith)
        requires
            cell < size * size,
            cell == size * q + cell as int % size as int,
            0 <= cell as int % size as int,
            size > 0,
    ;
    lemma_div_pos_is_pos(cell as int, size as int);
    assert(q * size == size * q) by (nonlinear_arith);
}

/// No set of cell numbers below `n` has more than `n` members.
pub proof fn lemma_bounded_set_len(s: Set<usize>, n: nat)
    requires
        s.finite(),
        forall|x: usize| s.contains(x) ==> x < n,
    ensures
        s.len() <= n,
    decreases n,
{
    if n == 0 {
        assert(s =~= Set::<usize>::empty());
    } else {
        let top = (n - 1) as usize;
        if n - 1 <= usize::MAX {
            lemma_bounded_set_len(s.remove(top), (n - 1) as nat);
        } else {
            lemma_bounded_set_len(s, (n - 1) as nat);
        }
    }
}

/// At an offset of the grid's side or more, every star point lies off the grid.
pub proof fn lemma_far_ring_closed(
    cells: Map<usize, Color>,
    size: usize,
    row: int,
    col: int,
    k: int,
)
    requires
        in_bounds(size, row, col),
        k >= size || k <= -size,
    ensures
        !ring_vacant(cells, size, row, col, k),
{
}

/// The number of the cell at `at`.
pub fn cell_index(size: usize, at: Location) -> (cell: usize)
    requires
        in_bounds(size, at.row as int, at.col as int),
        size * size <= usize::MAX,
    ensures
        cell == cell_of(size, at.row as int, at.col as int),
        cell < size * size,
{
    proof {
        lemma_cell_bound(size, at.row as int, at.col as int);
        assert(0 <= at.row * size <= at.row * size + at.col) by (nonlinear_arith)
            requires
                0 <= at.row,
                0 <= size,
                0 <= at.col,
        ;
    }
    at.row * size + at.col
}

/// The location of the cell with the given number.
pub fn cell_location(size: usize, cell: usize) -> (at: Location)
    requires
        size > 0,
    ensures
        at == location_of(size, cell),
{
    Location { row: cell / size, col: cell % size }
}

/// The neighbour of `from` in the direction `dir`, unless that leads off the grid.
pub fn neighbor(size: usize, from: Location, dir: Direction) -> (next: Option<Location>)
    requires
        in_bounds(size, from.row as int, from.col as int),
    ensures
        match next {
            Some(to) => in_bounds(size, to.row as int, to.col as int) && (
            to.row as int,
            to.col as int,
            ) == toward(from, dir),
            None => !in_bounds(size, toward(from, dir).0, toward(from, dir).1),
        },
{
    match dir {
        Direction::Up => if from.row > 0 {
            Some(Location { row: from.row - 1, col: from.col })
        } else {
            None
        },
        Direction::Left => if from.col > 0 {
            Some(Location { row: from.row, col: from.col - 1 })
        } else {
            None
        },
        Direction::Down => if from.row + 1 < size {
            Some(Location { row: from.row + 1, col: from.col })
        } else {
            None
        },
        Direction::Right => if from.col + 1 < size {
            Some(Location { row: from.row, col: from.col + 1 })
        } else {
            None
        },
    }
}

/// The cells of a square grid that have a colour.
pub struct Grid {
    size: usize,
    cells: HashMap<usize, Color>,
}

impl View for Grid {
    type V = Map<usize, Color>;

    /// The colour of each coloured cell, by the cell's number.
    closed spec fn view(&self) -> Map<usize, Color> {
        self.cells@
    }
}

impl Grid {
    /// The side of the grid.
    pub closed spec fn side(&self) -> usize {
        self.size
    }

    /// The side is positive and an image can have it, and every coloured cell lies on the
    /// grid.
    pub open spec fn wf(&self) -> bool {
        &&& 1 <= self.side() <= MAX_SIDE
        &&& self.side() * self.side() <= usize::MAX
        &&& self@.dom().finite()
        &&& forall|cell: usize| #[trigger] self@.contains_key(cell) ==> cell < self.side() * self.side()
    }

    /// A grid of the given side without a coloured cell.
    pub fn new(size: usize) -> (grid: Grid)
        requires
            1 <= size <= MAX_SIDE,
            size * size <= usize::MAX,
        ensures
            grid.wf(),
            grid.side() == size,
            grid@ == Map::<usize, Color>::empty(),
    {
        Grid { size, cells: HashMap::new() }
    }

    pub fn size(&self) -> (size: usize)
        ensures
            size == self.side(),
    {
        self.size
    }

    /// How many cells have a colour: never more than the grid has cells.
    pub fn count(&self) -> (n: usize)
        requires
            self.wf(),
        ensures
            n == self@.dom().len(),
            n <= self.side() * self.side(),
    {
        broadcast use group_hash_axioms;

        proof {
            lemma_bounded_set_len(self@.dom(), (self.side() * self.side()) as nat);
        }
        self.cells.len()
    }

    /// The colour at `at`, if the location lies on the grid and has one.
    pub fn color_at(&self, at: Location) -> (color: Option<Color>)
        requires
            self.wf(),
        ensures
            color == (if in_bounds(self.side(), at.row as int, at.col as int)
                && self@.contains_key(cell_of(self.side(), at.row as int, at.col as int)) {
                Some(self@[cell_of(self.side(), at.row as int, at.col as int)])
            } else {
                None
            }),
    {
        broadcast use group_hash_axioms;

        if at.row < self.size && at.col < self.size {
            let cell = cell_index(self.size, at);
            match self.cells.get(&cell) {
                Some(c) => Some(*c),
                None => None,
            }
        } else {
            None
        }
    }

    /// The colour of the cell with the given number, if it has one.
    pub fn color_of(&self, cell: usize) -> (color: Option<Color>)
        requires
            self.wf(),
        ensures
            color == (if self@.contains_key(cell) {
                Some(self@[cell])
            } else {
                None
            }),
    {
        broadcast use group_hash_axioms;

        match self.cells.get(&cell) {
            Some(c) => Some(*c),
            None => None,
        }
    }

    /// Gives the cell a colour: `color` itself where the cell had none, else the blend of
    /// the colour it had with `color`.
    pub fn commit(&mut self, cell: usize, color: Color)
        requires
            old(self).wf(),
            cell < old(self).side() * old(self).side(),
        ensures
            final(self).wf(),
            final(self).side() == old(self).side(),
            final(self)@ == committed(old(self)@, cell, color),
    {
        broadcast use group_hash_axioms;

        let shade = match self.cells.get(&cell) {
            Some(held) => held.blend(color),
            None => color,
        };
        self.cells.insert(cell, shade);
    }

    fn vacant_at(&self, row: i64, col: i64) -> (v: bool)
        requires
            self.wf(),
        ensures
            v == vacant(self@, self.side(), row as int, col as int),
    {
        broadcast use group_hash_axioms;

        if row < 0 || col < 0 || row >= self.size as i64 || col >= self.size as i64 {
            false
        } else {
            let cell = cell_index(self.size, Location { row: row as usize, col: col as usize });
            !self.cells.contains_key(&cell)
        }
    }

    fn ring_has_vacancy(&self, row: i64, col: i64, k: i64) -> (v: bool)
        requires
            self.wf(),
            in_bounds(self.side(), row as int, col as int),
            -self.side() < k < self.side(),
        ensures
            v == ring_vacant(self@, self.side(), row as int, col as int, k as int),
    {
        let v = self.vacant_at(row, col + k) || self.vacant_at(row + k, col) || self.vacant_at(
            row + k,
            col + k,
        ) || self.vacant_at(row - k, col + k);
        proof {
            let r = row as int;
            let c = col as int;
            let kk = k as int;
            assert(star(r, c, kk, 0) == (r, c + kk));
            assert(star(r, c, kk, 1) == (r + kk, c));
            assert(star(r, c, kk, 2) == (r + kk, c + kk));
            assert(star(r, c, kk, 3) == (r - kk, c + kk));
            if v {
                let arm: int = if vacant(self@, self.side(), r, c + kk) {
                    0
                } else if vacant(self@, self.side(), r + kk, c) {
                    1
                } else if vacant(self@, self.side(), r + kk, c + kk) {
                    2
                } else {
                    3
                };
                assert(vacant(
                    self@,
                    self.side(),
                    star(r, c, kk, arm).0,
                    star(r, c, kk, arm).1,
                ));
            }
        }
        v
    }

    /// Whether growth may still enter the coloured cell at `at`: whether some star point
    /// around it, at an offset from `-smoothing` to `smoothing`, is vacant.
    pub fn open_near(&self, at: Location, smoothing: usize) -> (open: bool)
        requires
            self.wf(),
            in_bounds(self.side(), at.row as int, at.col as int),
        ensures
            open == gate_open(self@, self.side(), smoothing, at.row as int, at.col as int),
    {
        let reach = if smoothing < self.size {
            smoothing
        } else {
            self.size - 1
        };
        let row = at.row as i64;
        let col = at.col as i64;
        let mut k: usize = 0;
        let mut open = false;
        while k <= reach && !open
            invariant
                self.wf(),
                in_bounds(self.side(), at.row as int, at.col as int),
                row == at.row,
                col == at.col,
                reach < self.side(),
                reach <= smoothing,
                k <= reach + 1,
                open ==> gate_open(self@, self.side(), smoothing, at.row as int, at.col as int),
                !open ==> forall|j: int|
                    -(k as int) < j < k ==> !#[trigger] ring_vacant(
                        self@,
                        self.side(),
                        at.row as int,
                        at.col as int,
                        j,
                    ),
            decreases
                    (if open {
                        0
                    } else {
                        reach + 2 - k
                    }),
        {
            let offset = k as i64;
            if self.ring_has_vacancy(row, col, offset) || self.ring_has_vacancy(row, col, -offset) {
                open = true;
            } else {
                k += 1;
            }
        }
        proof {
            if !open {
                assert forall|j: int| -smoothing <= j <= smoothing implies !#[trigger] ring_vacant(
                    self@,
                    self.side(),
                    at.row as int,
                    at.col as int,
                    j,
                ) by {
                    if j > reach || j < -reach {
                        lemma_far_ring_closed(self@, self.side(), at.row as int, at.col as int, j);
                    }
                }
            }
        }
        open
    }
}

} // verus!
