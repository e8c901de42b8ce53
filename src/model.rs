//! The mathematical model of a position: 64 cells in row-major order and the side to move,
//! with the rules of the game stated over it.
use vstd::prelude::*;
use crate::color::{Color, Winner};

verus! {

/// `(x, y)` lies on the 8x8 grid.
pub open spec fn in_bounds(x: int, y: int) -> bool {
    0 <= x < 8 && 0 <= y < 8
}

/// `(dx, dy)` is one of the eight compass directions.
pub open spec fn is_dir(dx: int, dy: int) -> bool {
    -1 <= dx <= 1 && -1 <= dy <= 1 && !(dx == 0 && dy == 0)
}

/// `(a, b)` is one of the eight cells around `(x, y)`.
pub open spec fn adjacent(x: int, y: int, a: int, b: int) -> bool {
    is_dir(a - x, b - y)
}

/// Rank of the cell `(a, b)` among the cells around `(x, y)`: column by column from the
/// left, and top to bottom within a column.
pub open spec fn around_rank(x: int, y: int, a: int, b: int) -> int {
    3 * (a - x) + (b - y)
}

/// Position of the cell `(x, y)` in the row-major cell sequence.
pub open spec fn index_of(x: int, y: int) -> int {
    8 * y + x
}

/// How many more steps along `d` stay on the board from coordinate `p`.
pub open spec fn reach(p: int, d: int) -> int {
    if d > 0 {
        8 - p
    } else if d < 0 {
        p + 1
    } else {
        0
    }
}

/// Number of cells holding `c` in `s`.
pub open spec fn count_in(s: Seq<Option<Color>>, c: Color) -> nat
    decreases s.len(),
{
    if s.len() == 0 {
        0
    } else {
        count_in(s.drop_last(), c) + if s.last() == Some(c) {
            1nat
        } else {
            0nat
        }
    }
}

/// Number of occupied cells in `s`.
pub open spec fn occupied_in(s: Seq<Option<Color>>) -> nat
    decreases s.len(),
{
    if s.len() == 0 {
        0
    } else {
        occupied_in(s.drop_last()) + if s.last() is Some {
            1nat
        } else {
            0nat
        }
    }
}

/// A position: the contents of the 64 cells, row by row, and the side to move.
pub struct Board {
    pub cells: Seq<Option<Color>>,
    pub player: Color,
}

impl Board {
    /// The standard opening: two discs per side, crossed at the centre, Black to move.
    pub open spec fn initial() -> Board {
        Board {
            cells: Seq::new(
                64,
                |i: int|
                    if i == index_of(3, 3) || i == index_of(4, 4) {
                        Some(Color::White)
                    } else if i == index_of(4, 3) || i == index_of(3, 4) {
                        Some(Color::Black)
                    } else {
                        None
                    },
            ),
            player: Color::Black,
        }
    }

    /// One entry per cell of the 8x8 grid.
    pub open spec fn wf(self) -> bool {
        self.cells.len() == 64
    }

    /// What occupies `(x, y)`; `None` when it is empty or off the board.
    pub open spec fn cell(self, x: int, y: int) -> Option<Color> {
        if in_bounds(x, y) {
            self.cells[index_of(x, y)]
        } else {
            None
        }
    }

    /// Walking from `(px, py)` along `(dx, dy)`: the number of opposing discs passed before
    /// the first disc of `c`, or `None` when an empty cell or the edge comes first.
    pub open spec fn run(self, px: int, py: int, dx: int, dy: int, c: Color) -> Option<nat>
        decreases reach(px, dx) + reach(py, dy),
    {
        if !in_bounds(px, py) || !is_dir(dx, dy) {
            None
        } else {
            match self.cell(px, py) {
                None => None,
                Some(d) => if d == c {
                    Some(0nat)
                } else {
                    match self.run(px + dx, py + dy, dx, dy, c) {
                        Some(n) => Some(n + 1),
                        None => None,
                    }
                },
            }
        }
    }

    /// `(a, b)` is one of the opposing discs passed on the walk from `(px, py)` along
    /// `(dx, dy)` before a disc of `c` or an empty cell or the edge.
    pub open spec fn on_run(
        self,
        px: int,
        py: int,
        dx: int,
        dy: int,
        c: Color,
        a: int,
        b: int,
    ) -> bool
        decreases reach(px, dx) + reach(py, dy),
    {
        if !in_bounds(px, py) || !is_dir(dx, dy) {
            false
        } else {
            match self.cell(px, py) {
                None => false,
                Some(d) => d != c && ((a == px && b == py) || self.on_run(
                    px + dx,
                    py + dy,
                    dx,
                    dy,
                    c,
                    a,
                    b,
                )),
            }
        }
    }

    /// A disc of `c` at `(x, y)` brackets at least one opposing disc along `(dx, dy)`.
    pub open spec fn captures(self, x: int, y: int, dx: int, dy: int, c: Color) -> bool {
        match self.run(x + dx, y + dy, dx, dy, c) {
            Some(n) => n > 0,
            None => false,
        }
    }

    /// `(a, b)` is captured along `(dx, dy)` by a disc of `c` at `(x, y)`.
    pub open spec fn flips_in(
        self,
        x: int,
        y: int,
        dx: int,
        dy: int,
        c: Color,
        a: int,
        b: int,
    ) -> bool {
        self.captures(x, y, dx, dy, c) && self.on_run(x + dx, y + dy, dx, dy, c, a, b)
    }

    /// `(a, b)` is captured, along some direction, by a disc of `c` placed at `(x, y)`.
    pub open spec fn flipped(self, x: int, y: int, c: Color, a: int, b: int) -> bool {
        in_bounds(x, y) && exists|dx: int, dy: int|
            is_dir(dx, dy) && #[trigger] self.flips_in(x, y, dx, dy, c, a, b)
    }

    /// `c` may place a disc at `(x, y)`.
    pub open spec fn legal(self, x: int, y: int, c: Color) -> bool {
        &&& in_bounds(x, y)
        &&& self.cell(x, y) is None
        &&& exists|dx: int, dy: int| is_dir(dx, dy) && #[trigger] self.captures(x, y, dx, dy, c)
    }

    /// All coordinates at which `c` may place a disc.
    pub open spec fn moves(self, c: Color) -> Set<(u8, u8)> {
        Set::new(|p: (u8, u8)| self.legal(p.0 as int, p.1 as int, c))
    }

    /// Contents of `(a, b)` after the discs captured from `(x, y)` turn to `c`.
    pub open spec fn flipped_cell(self, x: int, y: int, c: Color, a: int, b: int) -> Option<
        Color,
    > {
        if self.flipped(x, y, c, a, b) {
            Some(c)
        } else {
            self.cell(a, b)
        }
    }

    /// Contents of `(a, b)` after `c` plays at `(x, y)`.
    pub open spec fn placed_cell(self, x: int, y: int, c: Color, a: int, b: int) -> Option<
        Color,
    > {
        if a == x && b == y {
            Some(c)
        } else {
            self.flipped_cell(x, y, c, a, b)
        }
    }

    /// Number of discs of `c` on the board.
    pub open spec fn count(self, c: Color) -> nat {
        count_in(self.cells, c)
    }

    /// Neither side has a legal move.
    pub open spec fn over(self) -> bool {
        self.moves(Color::Black).is_empty() && self.moves(Color::White).is_empty()
    }

    /// The result of the game: absent while it goes on, else the side with more discs.
    pub open spec fn outcome(self) -> Option<Winner> {
        if !self.over() {
            None
        } else if self.count(Color::Black) > self.count(Color::White) {
            Some(Winner::Black)
        } else if self.count(Color::Black) < self.count(Color::White) {
            Some(Winner::White)
        } else {
            Some(Winner::Draw)
        }
    }
}

/// Every disc passed on a walk lies on the board and belongs to the side opposing `c`.
pub proof fn lemma_on_run_opposing(
    board: Board,
    px: int,
    py: int,
    dx: int,
    dy: int,
    c: Color,
    a: int,
    b: int,
)
    requires
        board.on_run(px, py, dx, dy, c, a, b),
    ensures
        in_bounds(a, b),
        board.cell(a, b) == Some(c.opposite()),
    decreases reach(px, dx) + reach(py, dy),
{
    if !(a == px && b == py) {
        lemma_on_run_opposing(board, px + dx, py + dy, dx, dy, c, a, b);
    }
}

/// A disc placed at `(x, y)` flips only opposing discs on the board.
pub proof fn lemma_flipped_opposing(board: Board, x: int, y: int, c: Color, a: int, b: int)
    requires
        board.flipped(x, y, c, a, b),
    ensures
        in_bounds(a, b),
        board.cell(a, b) == Some(c.opposite()),
{
    let (dx, dy) = choose|dx: int, dy: int| is_dir(dx, dy) && #[trigger] board.flips_in(x, y, dx, dy, c, a, b);
    lemma_on_run_opposing(board, x + dx, y + dy, dx, dy, c, a, b);
}

/// A legal move always lies next to a disc already on the board.
pub proof fn lemma_legal_next_to_disc(board: Board, x: int, y: int, c: Color) -> (q: (int, int))
    requires
        board.legal(x, y, c),
    ensures
        in_bounds(q.0, q.1),
        board.cell(q.0, q.1) is Some,
        adjacent(q.0, q.1, x, y),
{
    let (dx, dy) = choose|dx: int, dy: int| is_dir(dx, dy) && #[trigger] board.captures(x, y, dx, dy, c);
    assert(in_bounds(x + dx, y + dy));
    (x + dx, y + dy)
}

} // verus!
