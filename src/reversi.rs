//! The game state and the operations that read and change it.
use vstd::prelude::*;
use crate::color::{Color, Winner};
use crate::model::{
    adjacent, around_rank, in_bounds, index_of, is_dir, lemma_flipped_opposing, lemma_legal_next_to_disc, reach,
    Board,
};

verus! {

broadcast use vstd::seq_lib::lemma_seq_contains_after_push;

/// A game in progress: the side to move and the contents of the 64 cells, row by row.
pub struct Reversi {
    player: Color,
    board: Vec<Option<Color>>,
}

impl View for Reversi {
    type V = Board;

    closed spec fn view(&self) -> Board {
        Board { cells: self.board@, player: self.player }
    }
}

impl Reversi {
    /// The board holds exactly the 64 cells of the grid.
    pub open spec fn wf(&self) -> bool {
        self@.wf()
    }

    /// The opening position, Black to move.
    pub fn init() -> (r: Reversi)
        ensures
            r.wf(),
            r@ == Board::initial(),
    {
        let mut board: Vec<Option<Color>> = Vec::new();
        let mut i: usize = 0;
        while i < 64
            invariant
                i <= 64,
                board.len() == i,
                forall|j: int| 0 <= j < i ==> board@[j] is None,
            decreases 64 - i,
        {
            board.push(None);
            i = i + 1;
        }
        board[27] = Some(Color::White);
        board[28] = Some(Color::Black);
        board[35] = Some(Color::Black);
        board[36] = Some(Color::White);
        let r = Reversi { player: Color::Black, board };
        assert(r@.cells =~= Board::initial().cells);
        r
    }

    /// A position given by its 64 cells, row by row, and the side to move; `None` unless
    /// exactly 64 cells are given.
    pub fn from_cells(cells: &Vec<Option<Color>>, player: Color) -> (r: Option<Reversi>)
        ensures
            r is Some <==> cells.len() == 64,
            r matches Some(g) ==> g.wf() && g@ == (Board { cells: cells@, player }),
    {
        if cells.len() != 64 {
            return None;
        }
        let mut board: Vec<Option<Color>> = Vec::new();
        let mut i: usize = 0;
        while i < 64
            invariant
                cells.len() == 64,
                i <= 64,
                board@ == cells@.subrange(0, i as int),
            decreases 64 - i,
        {
            board.push(cells[i]);
            i = i + 1;
        }
        assert(board@ == cells@);
        Some(Reversi { player, board })
    }

    /// The side to move.
    pub fn get_player(&self) -> (r: Color)
        ensures
            r == self@.player,
    {
        self.player
    }

    /// Hands the move to the other side.
    pub fn change_player(&mut self)
        requires
            old(self).wf(),
        ensures
            final(self).wf(),
            final(self)@.cells == old(self)@.cells,
            final(self)@.player == old(self)@.player.opposite(),
    {
        self.player = self.player.other();
    }

    /// What occupies `(x, y)`; `None` when it is empty or off the board.
    pub fn get_color(&self, x: u8, y: u8) -> (r: Option<Color>)
        requires
            self.wf(),
        ensures
            r == self@.cell(x as int, y as int),
    {
        if x < 8 && y < 8 {
            self.board[8 * (y as usize) + (x as usize)]
        } else {
            None
        }
    }

    /// `(x, y)` lies on the board.
    fn is_valid_point(&self, x: i8, y: i8) -> (r: bool)
        ensures
            r == in_bounds(x as int, y as int),
    {
        x >= 0 && y >= 0 && x < 8 && y < 8
    }

    /// No disc stands on `(x, y)`.
    fn empty_point(&self, x: u8, y: u8) -> (r: bool)
        requires
            self.wf(),
        ensures
            r == (self@.cell(x as int, y as int) is None),
    {
        match self.get_color(x, y) {
            None => true,
            _ => false,
        }
    }

    /// The opposing discs that a disc of `color` at `(x, y)` captures along `(dx, dy)`:
    /// empty unless the run of them ends at a disc of `color`.
    fn capture_line(&self, x: u8, y: u8, dx: i8, dy: i8, color: Color) -> (r: Vec<(u8, u8)>)
        requires
            self.wf(),
            in_bounds(x as int, y as int),
            is_dir(dx as int, dy as int),
        ensures
            r.len() > 0 <==> self@.captures(x as int, y as int, dx as int, dy as int, color),
            forall|k: int|
                0 <= k < r.len() ==> self@.flips_in(
                    x as int,
                    y as int,
                    dx as int,
                    dy as int,
                    color,
                    r@[k].0 as int,
                    r@[k].1 as int,
                ),
            forall|a: int, b: int|
                #[trigger] self@.flips_in(x as int, y as int, dx as int, dy as int, color, a, b)
                    ==> r@.contains((a as u8, b as u8)),
    {
        let ghost sx = x as int + dx as int;
        let ghost sy = y as int + dy as int;
        let ghost ddx = dx as int;
        let ghost ddy = dy as int;
        let mut line: Vec<(u8, u8)> = Vec::new();
        let mut px: i8 = x as i8 + dx;
        let mut py: i8 = y as i8 + dy;
        loop
            invariant
                self.wf(),
                is_dir(ddx, ddy),
                ddx == dx,
                ddy == dy,
                sx == x + dx,
                sy == y + dy,
                -1 <= px <= 8,
                -1 <= py <= 8,
                self@.run(sx, sy, ddx, ddy, color) == match self@.run(
                    px as int,
                    py as int,
                    ddx,
                    ddy,
                    color,
                ) {
                    Some(n) => Some((n + line.len()) as nat),
                    None => None,
                },
                forall|k: int|
                    #![trigger line@[k]]
                    0 <= k < line.len() ==> in_bounds(line@[k].0 as int, line@[k].1 as int)
                        && self@.on_run(
                        sx,
                        sy,
                        ddx,
                        ddy,
                        color,
                        line@[k].0 as int,
                        line@[k].1 as int,
                    ),
                forall|a: int, b: int|
                    #[trigger] self@.on_run(sx, sy, ddx, ddy, color, a, b) ==> line@.contains(
                        (a as u8, b as u8),
                    ) || self@.on_run(px as int, py as int, ddx, ddy, color, a, b),
                forall|a: int, b: int|
                    #[trigger] self@.on_run(px as int, py as int, ddx, ddy, color, a, b)
                        ==> self@.on_run(sx, sy, ddx, ddy, color, a, b),
            decreases reach(px as int, ddx) + reach(py as int, ddy),
        {
            if !self.is_valid_point(px, py) {
                assert(self@.run(px as int, py as int, ddx, ddy, color) is None);
                return Vec::new();
            }
            match self.get_color(px as u8, py as u8) {
                None => {
                    return Vec::new();
                },
                Some(d) => {
                    if d == color {
                        return line;
                    }
                    proof {
                        let l0 = line@;
                        assert(self@.on_run(px as int, py as int, ddx, ddy, color, px as int, py as int));
                        assert forall|a: int, b: int|
                            #[trigger] self@.on_run(px + ddx, py + ddy, ddx, ddy, color, a, b)
                                implies self@.on_run(sx, sy, ddx, ddy, color, a, b) by {
                            assert(self@.on_run(px as int, py as int, ddx, ddy, color, a, b));
                        }
                        assert forall|a: int, b: int|
                            #[trigger] self@.on_run(sx, sy, ddx, ddy, color, a, b) implies l0.push(
                                (px as u8, py as u8),
                            ).contains((a as u8, b as u8)) || self@.on_run(
                                px + ddx,
                                py + ddy,
                                ddx,
                                ddy,
                                color,
                                a,
                                b,
                            ) by {
                            if l0.contains((a as u8, b as u8)) {
                                let k = choose|k: int| 0 <= k < l0.len() && l0[k] == (a as u8, b as u8);
                                assert(l0.push((px as u8, py as u8))[k] == (a as u8, b as u8));
                            } else if a == px && b == py {
                                assert(l0.push((px as u8, py as u8))[l0.len() as int] == (a as u8, b as u8));
                            }
                        }
                    }
                    let ghost before = line@;
                    line.push((px as u8, py as u8));
                    assert forall|k: int|
                        #![trigger line@[k]]
                        0 <= k < line.len() implies in_bounds(
                        line@[k].0 as int,
                        line@[k].1 as int,
                    ) && self@.on_run(
                        sx,
                        sy,
                        ddx,
                        ddy,
                        color,
                        line@[k].0 as int,
                        line@[k].1 as int,
                    ) by {
                        if k < before.len() {
                            assert(line@[k] == before[k]);
                        } else {
                            assert(line@[k] == (px as u8, py as u8));
                            assert(self@.on_run(px as int, py as int, ddx, ddy, color, px as int, py as int));
                            assert(self@.on_run(sx, sy, ddx, ddy, color, px as int, py as int));
                        }
                    }
                    px = px + dx;
                    py = py + dy;
                },
            }
        }
    }

    /// The cells around `(x, y)` that lie on the board, each once, in `around_rank` order.
    fn get_neighborhoods(&self, x: u8, y: u8) -> (r: Vec<(u8, u8)>)
        requires
            in_bounds(x as int, y as int),
        ensures
            forall|k: int|
                #![trigger r@[k]]
                0 <= k < r.len() ==> in_bounds(r@[k].0 as int, r@[k].1 as int) && adjacent(
                    x as int,
                    y as int,
                    r@[k].0 as int,
                    r@[k].1 as int,
                ),
            forall|a: int, b: int|
                in_bounds(a, b) && #[trigger] adjacent(x as int, y as int, a, b) ==> r@.contains(
                    (a as u8, b as u8),
                ),
            forall|k: int, l: int|
                0 <= k < l < r.len() ==> around_rank(
                    x as int,
                    y as int,
                    r@[k].0 as int,
                    r@[k].1 as int,
                ) < around_rank(x as int, y as int, #[trigger] r@[l].0 as int, r@[l].1 as int)
                    && #[trigger] r@[k] != r@[l],
            r@.no_duplicates(),
    {
        let mut r: Vec<(u8, u8)> = Vec::new();
        let mut dx: i8 = -1;
        while dx <= 1
            invariant
                -1 <= dx <= 2,
                in_bounds(x as int, y as int),
                forall|k: int|
                    #![trigger r@[k]]
                    0 <= k < r.len() ==> in_bounds(r@[k].0 as int, r@[k].1 as int) && adjacent(
                        x as int,
                        y as int,
                        r@[k].0 as int,
                        r@[k].1 as int,
                    ),
                forall|a: int, b: int|
                    in_bounds(a, b) && #[trigger] adjacent(x as int, y as int, a, b) && a - x
                        < dx ==> r@.contains((a as u8, b as u8)),
                forall|k: int, l: int|
            0 <= k < l < r.len() ==> around_rank(
                x as int,
                y as int,
                r@[k].0 as int,
                r@[k].1 as int,
            ) < around_rank(x as int, y as int, #[trigger] r@[l].0 as int, r@[l].1 as int)
                && #[trigger] r@[k] != r@[l],
                forall|k: int|
                    #![trigger r@[k]]
                    0 <= k < r.len() ==> around_rank(x as int, y as int, r@[k].0 as int, r@[k].1 as int)
                        < 3 * dx - 1,
            decreases 2 - dx,
        {
            let mut dy: i8 = -1;
            while dy <= 1
                invariant
                    -1 <= dx <= 1,
                    -1 <= dy <= 2,
                    in_bounds(x as int, y as int),
                    forall|k: int|
                        #![trigger r@[k]]
                        0 <= k < r.len() ==> in_bounds(r@[k].0 as int, r@[k].1 as int)
                            && adjacent(x as int, y as int, r@[k].0 as int, r@[k].1 as int),
                    forall|a: int, b: int|
                        in_bounds(a, b) && #[trigger] adjacent(x as int, y as int, a, b) && (a - x
                            < dx || (a - x == dx && b - y < dy)) ==> r@.contains(
                            (a as u8, b as u8),
                        ),
                    forall|k: int, l: int|
            0 <= k < l < r.len() ==> around_rank(
                x as int,
                y as int,
                r@[k].0 as int,
                r@[k].1 as int,
            ) < around_rank(x as int, y as int, #[trigger] r@[l].0 as int, r@[l].1 as int)
                && #[trigger] r@[k] != r@[l],
                    forall|k: int|
                        #![trigger r@[k]]
                        0 <= k < r.len() ==> around_rank(x as int, y as int, r@[k].0 as int, r@[k].1 as int)
                            < 3 * dx + dy,
                decreases 2 - dy,
            {
                let nx: i8 = x as i8 + dx;
                let ny: i8 = y as i8 + dy;
                if !(dx == 0 && dy == 0) && self.is_valid_point(nx, ny) {
                    r.push((nx as u8, ny as u8));
                }
                dy = dy + 1;
            }
            dx = dx + 1;
        }
        r
    }

    /// The cells around `(x, y)` that hold a disc of the side opposing `color`, each once, in
    /// `around_rank` order: the neighbours filtered in order.
    fn get_neighborhood_enemies(&self, x: u8, y: u8, color: &Color) -> (r: Vec<(u8, u8)>)
        requires
            self.wf(),
            in_bounds(x as int, y as int),
        ensures
            forall|k: int|
                #![trigger r@[k]]
                0 <= k < r.len() ==> in_bounds(r@[k].0 as int, r@[k].1 as int) && adjacent(
                    x as int,
                    y as int,
                    r@[k].0 as int,
                    r@[k].1 as int,
                ) && self@.cell(r@[k].0 as int, r@[k].1 as int) == Some(color.opposite()),
            forall|a: int, b: int|
                in_bounds(a, b) && #[trigger] adjacent(x as int, y as int, a, b) && self@.cell(a, b)
                    == Some(color.opposite()) ==> r@.contains((a as u8, b as u8)),
            forall|k: int, l: int|
                0 <= k < l < r.len() ==> around_rank(
                    x as int,
                    y as int,
                    r@[k].0 as int,
                    r@[k].1 as int,
                ) < around_rank(x as int, y as int, #[trigger] r@[l].0 as int, r@[l].1 as int)
                    && #[trigger] r@[k] != r@[l],
            r@.no_duplicates(),
    {
        let ns = self.get_neighborhoods(x, y);
        let enemy = color.other();
        let mut r: Vec<(u8, u8)> = Vec::new();
        let mut i: usize = 0;
        while i < ns.len()
            invariant
                self.wf(),
                i <= ns.len(),
                enemy == color.opposite(),
                forall|k: int|
                    #![trigger ns@[k]]
                    0 <= k < ns.len() ==> in_bounds(ns@[k].0 as int, ns@[k].1 as int) && adjacent(
                        x as int,
                        y as int,
                        ns@[k].0 as int,
                        ns@[k].1 as int,
                    ),
                forall|a: int, b: int|
                    in_bounds(a, b) && #[trigger] adjacent(x as int, y as int, a, b) ==> ns@.contains(
                        (a as u8, b as u8),
                    ),
                forall|k: int|
                    #![trigger r@[k]]
                    0 <= k < r.len() ==> in_bounds(r@[k].0 as int, r@[k].1 as int) && adjacent(
                        x as int,
                        y as int,
                        r@[k].0 as int,
                        r@[k].1 as int,
                    ) && self@.cell(r@[k].0 as int, r@[k].1 as int) == Some(color.opposite()),
                forall|k: int|
                    #![trigger ns@[k]]
                    0 <= k < i && self@.cell(ns@[k].0 as int, ns@[k].1 as int) == Some(
                        color.opposite(),
                    ) ==> r@.contains(ns@[k]),
                forall|k: int, l: int|
                    0 <= k < l < ns.len() ==> around_rank(
                        x as int,
                        y as int,
                        ns@[k].0 as int,
                        ns@[k].1 as int,
                    ) < around_rank(x as int, y as int, #[trigger] ns@[l].0 as int, ns@[l].1 as int)
                        && #[trigger] ns@[k] != ns@[l],
                forall|k: int, l: int|
                    0 <= k < l < r.len() ==> around_rank(
                        x as int,
                        y as int,
                        r@[k].0 as int,
                        r@[k].1 as int,
                    ) < around_rank(x as int, y as int, #[trigger] r@[l].0 as int, r@[l].1 as int)
                        && #[trigger] r@[k] != r@[l],
                forall|k: int, j: int|
                    0 <= k < r.len() && i <= j < ns.len() ==> around_rank(
                        x as int,
                        y as int,
                        #[trigger] r@[k].0 as int,
                        r@[k].1 as int,
                    ) < around_rank(x as int, y as int, #[trigger] ns@[j].0 as int, ns@[j].1 as int),
            decreases ns.len() - i,
        {
            let (nx, ny) = ns[i];
            if self.get_color(nx, ny) == Some(enemy) {
                r.push((nx, ny));
            }
            i = i + 1;
        }
        proof {
            assert forall|a: int, b: int|
                in_bounds(a, b) && #[trigger] adjacent(x as int, y as int, a, b) && self@.cell(a, b)
                    == Some(color.opposite()) implies r@.contains((a as u8, b as u8)) by {
                let k = choose|k: int| 0 <= k < ns.len() && ns@[k] == (a as u8, b as u8);
                assert(ns@[k] == (a as u8, b as u8));
            }
        }
        r
    }

    /// The step that leads from `from` to its neighbour `to`.
    fn get_direction(&self, from: (u8, u8), to: (u8, u8)) -> (r: (i8, i8))
        requires
            in_bounds(from.0 as int, from.1 as int),
            in_bounds(to.0 as int, to.1 as int),
        ensures
            r.0 == to.0 - from.0,
            r.1 == to.1 - from.1,
    {
        (to.0 as i8 - from.0 as i8, to.1 as i8 - from.1 as i8)
    }

    /// Some direction from `(x, y)` has a run of opposing discs closed by a disc of `color`.
    fn can_put_by_color(&self, x: u8, y: u8, color: &Color) -> (r: bool)
        requires
            self.wf(),
            in_bounds(x as int, y as int),
        ensures
            r == exists|dx: int, dy: int|
                is_dir(dx, dy) && #[trigger] self@.captures(x as int, y as int, dx, dy, *color),
    {
        let enemies = self.get_neighborhood_enemies(x, y, color);
        let mut i: usize = 0;
        while i < enemies.len()
            invariant
                self.wf(),
                in_bounds(x as int, y as int),
                i <= enemies.len(),
                forall|k: int|
                    #![trigger enemies@[k]]
                    0 <= k < enemies.len() ==> in_bounds(
                        enemies@[k].0 as int,
                        enemies@[k].1 as int,
                    ) && adjacent(x as int, y as int, enemies@[k].0 as int, enemies@[k].1 as int),
                forall|k: int|
                    #![trigger enemies@[k]]
                    0 <= k < i ==> !self@.captures(
                        x as int,
                        y as int,
                        enemies@[k].0 - x,
                        enemies@[k].1 - y,
                        *color,
                    ),
            decreases enemies.len() - i,
        {
            let d = self.get_direction((x, y), enemies[i]);
            let line = self.capture_line(x, y, d.0, d.1, *color);
            if line.len() > 0 {
                return true;
            }
            i = i + 1;
        }
        proof {
            assert forall|dx: int, dy: int| is_dir(dx, dy) implies !#[trigger] self@.captures(
                x as int,
                y as int,
                dx,
                dy,
                *color,
            ) by {
                if self@.captures(x as int, y as int, dx, dy, *color) {
                    let (a, b) = (x + dx, y + dy);
                    assert(in_bounds(a, b));
                    assert(adjacent(x as int, y as int, a, b));
                    assert(self@.cell(a, b) == Some(color.opposite()));
                    let k = choose|k: int|
                        0 <= k < enemies.len() && enemies@[k] == (a as u8, b as u8);
                    assert(enemies@[k] == (a as u8, b as u8));
                }
            }
        }
        false
    }

    /// `color` may place a disc at `(x, y)`: the cell is on the board, empty, and the
    /// disc would capture along at least one direction.
    fn can_put(&self, x: u8, y: u8, color: &Color) -> (r: bool)
        requires
            self.wf(),
        ensures
            r == self@.legal(x as int, y as int, *color),
    {
        x < 8 && y < 8 && self.empty_point(x, y) && self.can_put_by_color(x, y, color)
    }

    /// Puts a disc of `color` on `(x, y)`: adds it to an empty cell, or turns over the disc
    /// already there. Off the board nothing changes.
    fn change_color(&mut self, x: u8, y: u8, color: Color)
        requires
            old(self).wf(),
        ensures
            final(self).wf(),
            final(self)@.player == old(self)@.player,
            in_bounds(x as int, y as int) ==> final(self)@.cells == old(self)@.cells.update(
                index_of(x as int, y as int),
                Some(color),
            ),
            !in_bounds(x as int, y as int) ==> final(self)@.cells == old(self)@.cells,
    {
        if x < 8 && y < 8 {
            self.board[8 * (y as usize) + (x as usize)] = Some(color);
        }
    }

    /// Turns to `color` every disc that a disc of `color` on `(x, y)` captures: in each
    /// direction, the run of opposing discs next to `(x, y)` when a disc of `color` closes it.
    pub fn update_by_put(&mut self, x: u8, y: u8, color: Color)
        requires
            old(self).wf(),
        ensures
            final(self).wf(),
            final(self)@.player == old(self)@.player,
            forall|a: int, b: int|
                in_bounds(a, b) ==> #[trigger] final(self)@.cell(a, b) == old(self)@.flipped_cell(
                    x as int,
                    y as int,
                    color,
                    a,
                    b,
                ),
    {
        if x >= 8 || y >= 8 {
            return;
        }
        let ghost start = self@;
        let enemies = self.get_neighborhood_enemies(x, y, &color);
        let mut mask: Vec<bool> = Vec::new();
        let mut n: usize = 0;
        while n < 64
            invariant
                n <= 64,
                mask.len() == n,
                forall|j: int| 0 <= j < n ==> !mask@[j],
            decreases 64 - n,
        {
            mask.push(false);
            n = n + 1;
        }
        let mut i: usize = 0;
        while i < enemies.len()
            invariant
                self.wf(),
                self@ == start,
                in_bounds(x as int, y as int),
                i <= enemies.len(),
                mask.len() == 64,
                forall|k: int|
                    #![trigger enemies@[k]]
                    0 <= k < enemies.len() ==> in_bounds(
                        enemies@[k].0 as int,
                        enemies@[k].1 as int,
                    ) && adjacent(x as int, y as int, enemies@[k].0 as int, enemies@[k].1 as int),
                forall|a: int, b: int|
                    in_bounds(a, b) && #[trigger] mask@[index_of(a, b)] ==> start.flipped(
                        x as int,
                        y as int,
                        color,
                        a,
                        b,
                    ),
                forall|k: int, a: int, b: int|
                    0 <= k < i && in_bounds(a, b) && #[trigger] start.flips_in(
                        x as int,
                        y as int,
                        enemies@[k].0 - x,
                        enemies@[k].1 - y,
                        color,
                        a,
                        b,
                    ) ==> mask@[index_of(a, b)],
            decreases enemies.len() - i,
        {
            let d = self.get_direction((x, y), enemies[i]);
            let line = self.capture_line(x, y, d.0, d.1, color);
            proof {
                assert forall|k: int|
                    #![trigger line@[k]]
                    0 <= k < line.len() implies in_bounds(line@[k].0 as int, line@[k].1 as int) by {
                    lemma_flipped_opposing(start, x as int, y as int, color, line@[k].0 as int, line@[k].1 as int);
                }
            }
            let mut j: usize = 0;
            while j < line.len()
                invariant
                    forall|k: int|
                        #![trigger line@[k]]
                        0 <= k < line.len() ==> in_bounds(line@[k].0 as int, line@[k].1 as int),
                    self.wf(),
                    self@ == start,
                    in_bounds(x as int, y as int),
                    is_dir(d.0 as int, d.1 as int),
                    j <= line.len(),
                    mask.len() == 64,
                    forall|k: int|
                        0 <= k < line.len() ==> #[trigger] start.flips_in(
                            x as int,
                            y as int,
                            d.0 as int,
                            d.1 as int,
                            color,
                            line@[k].0 as int,
                            line@[k].1 as int,
                        ),
                    forall|a: int, b: int|
                        in_bounds(a, b) && #[trigger] mask@[index_of(a, b)] ==> start.flipped(
                            x as int,
                            y as int,
                            color,
                            a,
                            b,
                        ),
                    forall|k: int, a: int, b: int|
                        0 <= k < i && in_bounds(a, b) && #[trigger] start.flips_in(
                            x as int,
                            y as int,
                            enemies@[k].0 - x,
                            enemies@[k].1 - y,
                            color,
                            a,
                            b,
                        ) ==> mask@[index_of(a, b)],
                    forall|k: int|
                        #![trigger line@[k]]
                        0 <= k < j ==> mask@[index_of(line@[k].0 as int, line@[k].1 as int)],
                decreases line.len() - j,
            {
                let (a, b) = line[j];
                proof {
                    assert(start.flips_in(x as int, y as int, d.0 as int, d.1 as int, color, a as int, b as int));
                    lemma_flipped_opposing(start, x as int, y as int, color, a as int, b as int);
                }
                let ghost before = mask@;
                mask[8 * (b as usize) + (a as usize)] = true;
                assert forall|k: int|
                    #![trigger line@[k]]
                    0 <= k < j + 1 implies mask@[index_of(line@[k].0 as int, line@[k].1 as int)] by {
                    if k < j {
                        assert(before[index_of(line@[k].0 as int, line@[k].1 as int)]);
                    }
                }
                j = j + 1;
            }
            proof {
                assert forall|a: int, b: int|
                    in_bounds(a, b) && #[trigger] start.flips_in(
                        x as int,
                        y as int,
                        d.0 as int,
                        d.1 as int,
                        color,
                        a,
                        b,
                    ) implies mask@[index_of(a, b)] by {
                    let k = choose|k: int| 0 <= k < line.len() && line@[k] == (a as u8, b as u8);
                    assert(line@[k] == (a as u8, b as u8));
                }
            }
            i = i + 1;
        }
        proof {
            assert forall|a: int, b: int|
                in_bounds(a, b) && #[trigger] start.flipped(x as int, y as int, color, a, b) implies mask@[index_of(a, b)] by {
                let (dx, dy) = choose|dx: int, dy: int|
                    is_dir(dx, dy) && #[trigger] start.flips_in(x as int, y as int, dx, dy, color, a, b);
                let (ex, ey) = (x + dx, y + dy);
                assert(in_bounds(ex, ey));
                assert(adjacent(x as int, y as int, ex, ey));
                assert(start.cell(ex, ey) == Some(color.opposite()));
                let k = choose|k: int| 0 <= k < enemies.len() && enemies@[k] == (ex as u8, ey as u8);
                assert(enemies@[k] == (ex as u8, ey as u8));
            }
        }
        let mut p: usize = 0;
        while p < 64
            invariant
                self.wf(),
                self@.player == start.player,
                start.wf(),
                p <= 64,
                mask.len() == 64,
                forall|a: int, b: int|
                    in_bounds(a, b) ==> (#[trigger] mask@[index_of(a, b)] <==> start.flipped(
                        x as int,
                        y as int,
                        color,
                        a,
                        b,
                    )),
                forall|q: int|
                    0 <= q < 64 ==> #[trigger] self@.cells[q] == if q < p && mask@[q] {
                        Some(color)
                    } else {
                        start.cells[q]
                    },
            decreases 64 - p,
        {
            if mask[p] {
                let a = (p % 8) as u8;
                let b = (p / 8) as u8;
                assert(index_of(a as int, b as int) == p);
                self.change_color(a, b, color);
            }
            p = p + 1;
        }
    }

    /// Plays a disc of `color` at `(x, y)` when that is legal, turning the captured discs;
    /// returns whether it played. An illegal move changes nothing.
    pub fn put(&mut self, x: u8, y: u8, color: Color) -> (r: bool)
        requires
            old(self).wf(),
        ensures
            final(self).wf(),
            final(self)@.player == old(self)@.player,
            r == old(self)@.legal(x as int, y as int, color),
            r ==> forall|a: int, b: int|
                in_bounds(a, b) ==> #[trigger] final(self)@.cell(a, b) == old(self)@.placed_cell(
                    x as int,
                    y as int,
                    color,
                    a,
                    b,
                ),
            !r ==> final(self)@ == old(self)@,
    {
        if self.can_put(x, y, &color) {
            let ghost start = self@;
            self.update_by_put(x, y, color);
            proof {
                assert(!start.flipped(x as int, y as int, color, x as int, y as int)) by {
                    if start.flipped(x as int, y as int, color, x as int, y as int) {
                        lemma_flipped_opposing(start, x as int, y as int, color, x as int, y as int);
                    }
                }
            }
            let ghost mid = self@;
            self.change_color(x, y, color);
            assert forall|a: int, b: int| in_bounds(a, b) implies #[trigger] self@.cell(a, b)
                == start.placed_cell(x as int, y as int, color, a, b) by {
                assert(mid.cell(a, b) == start.flipped_cell(x as int, y as int, color, a, b));
            }
            true
        } else {
            false
        }
    }

    /// The empty cells around `(x, y)`, each once, in `around_rank` order: the neighbours
    /// filtered in order.
    fn get_empty_neighborhoods(&self, x: u8, y: u8) -> (r: Vec<(u8, u8)>)
        requires
            self.wf(),
            in_bounds(x as int, y as int),
        ensures
            forall|k: int|
                #![trigger r@[k]]
                0 <= k < r.len() ==> in_bounds(r@[k].0 as int, r@[k].1 as int) && adjacent(
                    x as int,
                    y as int,
                    r@[k].0 as int,
                    r@[k].1 as int,
                ) && self@.cell(r@[k].0 as int, r@[k].1 as int) is None,
            forall|a: int, b: int|
                in_bounds(a, b) && #[trigger] adjacent(x as int, y as int, a, b) && self@.cell(a, b)
                    is None ==> r@.contains((a as u8, b as u8)),
            forall|k: int, l: int|
                0 <= k < l < r.len() ==> around_rank(
                    x as int,
                    y as int,
                    r@[k].0 as int,
                    r@[k].1 as int,
                ) < around_rank(x as int, y as int, #[trigger] r@[l].0 as int, r@[l].1 as int)
                    && #[trigger] r@[k] != r@[l],
            r@.no_duplicates(),
    {
        let ns = self.get_neighborhoods(x, y);
        let mut r: Vec<(u8, u8)> = Vec::new();
        let mut i: usize = 0;
        while i < ns.len()
            invariant
                self.wf(),
                i <= ns.len(),
                forall|k: int|
                    #![trigger ns@[k]]
                    0 <= k < ns.len() ==> in_bounds(ns@[k].0 as int, ns@[k].1 as int) && adjacent(
                        x as int,
                        y as int,
                        ns@[k].0 as int,
                        ns@[k].1 as int,
                    ),
                forall|a: int, b: int|
                    in_bounds(a, b) && #[trigger] adjacent(x as int, y as int, a, b) ==> ns@.contains(
                        (a as u8, b as u8),
                    ),
                forall|k: int|
                    #![trigger r@[k]]
                    0 <= k < r.len() ==> in_bounds(r@[k].0 as int, r@[k].1 as int) && adjacent(
                        x as int,
                        y as int,
                        r@[k].0 as int,
                        r@[k].1 as int,
                    ) && self@.cell(r@[k].0 as int, r@[k].1 as int) is None,
                forall|k: int|
                    #![trigger ns@[k]]
                    0 <= k < i && self@.cell(ns@[k].0 as int, ns@[k].1 as int) is None
                        ==> r@.contains(ns@[k]),
                forall|k: int, l: int|
                    0 <= k < l < ns.len() ==> around_rank(
                        x as int,
                        y as int,
                        ns@[k].0 as int,
                        ns@[k].1 as int,
                    ) < around_rank(x as int, y as int, #[trigger] ns@[l].0 as int, ns@[l].1 as int)
                        && #[trigger] ns@[k] != ns@[l],
                forall|k: int, l: int|
                    0 <= k < l < r.len() ==> around_rank(
                        x as int,
                        y as int,
                        r@[k].0 as int,
                        r@[k].1 as int,
                    ) < around_rank(x as int, y as int, #[trigger] r@[l].0 as int, r@[l].1 as int)
                        && #[trigger] r@[k] != r@[l],
                forall|k: int, j: int|
                    0 <= k < r.len() && i <= j < ns.len() ==> around_rank(
                        x as int,
                        y as int,
                        #[trigger] r@[k].0 as int,
                        r@[k].1 as int,
                    ) < around_rank(x as int, y as int, #[trigger] ns@[j].0 as int, ns@[j].1 as int),
            decreases ns.len() - i,
        {
            let (nx, ny) = ns[i];
            if self.empty_point(nx, ny) {
                r.push((nx, ny));
            }
            i = i + 1;
        }
        proof {
            assert forall|a: int, b: int|
                in_bounds(a, b) && #[trigger] adjacent(x as int, y as int, a, b) && self@.cell(a, b)
                    is None implies r@.contains((a as u8, b as u8)) by {
                let k = choose|k: int| 0 <= k < ns.len() && ns@[k] == (a as u8, b as u8);
                assert(ns@[k] == (a as u8, b as u8));
            }
        }
        r
    }

    /// `p` is one of the coordinates in `points`.
    fn has_point(points: &Vec<(u8, u8)>, p: (u8, u8)) -> (r: bool)
        ensures
            r == points@.contains(p),
    {
        let mut i: usize = 0;
        while i < points.len()
            invariant
                i <= points.len(),
                forall|k: int| 0 <= k < i ==> points@[k] != p,
            decreases points.len() - i,
        {
            if points[i].0 == p.0 && points[i].1 == p.1 {
                assert(points@[i as int] == p);
                return true;
            }
            i = i + 1;
        }
        false
    }

    /// Every coordinate at which `player` may place a disc, each once. The candidates are
    /// the empty cells next to the discs on the board: a move is only ever legal there.
    pub fn puttable_points(&self, player: &Color) -> (r: Vec<(u8, u8)>)
        requires
            self.wf(),
        ensures
            forall|p: (u8, u8)| #[trigger] r@.contains(p) <==> self@.moves(*player).contains(p),
            r@.no_duplicates(),
    {
        let mut r: Vec<(u8, u8)> = Vec::new();
        let mut qy: u8 = 0;
        while qy < 8
            invariant
                self.wf(),
                qy <= 8,
                forall|k: int|
                    #![trigger r@[k]]
                    0 <= k < r.len() ==> self@.legal(r@[k].0 as int, r@[k].1 as int, *player),
                r@.no_duplicates(),
                forall|qa: int, qb: int, a: int, b: int|
                    #[trigger] adjacent(qa, qb, a, b) && self@.legal(a, b, *player) && in_bounds(
                        qa,
                        qb,
                    ) && self@.cell(qa, qb) is Some && qb < qy ==> r@.contains((a as u8, b as u8)),
            decreases 8 - qy,
        {
            let mut qx: u8 = 0;
            while qx < 8
                invariant
                    self.wf(),
                    qy < 8,
                    qx <= 8,
                    forall|k: int|
                        #![trigger r@[k]]
                        0 <= k < r.len() ==> self@.legal(r@[k].0 as int, r@[k].1 as int, *player),
                    r@.no_duplicates(),
                    forall|qa: int, qb: int, a: int, b: int|
                        #[trigger] adjacent(qa, qb, a, b) && self@.legal(a, b, *player)
                            && in_bounds(qa, qb) && self@.cell(qa, qb) is Some && (qb < qy || (qb
                            == qy && qa < qx)) ==> r@.contains((a as u8, b as u8)),
                decreases 8 - qx,
            {
                if !self.empty_point(qx, qy) {
                    let cands = self.get_empty_neighborhoods(qx, qy);
                    let mut i: usize = 0;
                    while i < cands.len()
                        invariant
                            self.wf(),
                            qy < 8,
                            qx < 8,
                            i <= cands.len(),
                            forall|k: int|
                                #![trigger cands@[k]]
                                0 <= k < cands.len() ==> in_bounds(
                                    cands@[k].0 as int,
                                    cands@[k].1 as int,
                                ) && adjacent(
                                    qx as int,
                                    qy as int,
                                    cands@[k].0 as int,
                                    cands@[k].1 as int,
                                ),
                            forall|k: int|
                                #![trigger r@[k]]
                                0 <= k < r.len() ==> self@.legal(
                                    r@[k].0 as int,
                                    r@[k].1 as int,
                                    *player,
                                ),
                            r@.no_duplicates(),
                            forall|qa: int, qb: int, a: int, b: int|
                                #[trigger] adjacent(qa, qb, a, b) && self@.legal(a, b, *player)
                                    && in_bounds(qa, qb) && self@.cell(qa, qb) is Some && (qb < qy
                                    || (qb == qy && qa < qx)) ==> r@.contains((a as u8, b as u8)),
                            forall|k: int|
                                #![trigger cands@[k]]
                                0 <= k < i && self@.legal(
                                    cands@[k].0 as int,
                                    cands@[k].1 as int,
                                    *player,
                                ) ==> r@.contains(cands@[k]),
                        decreases cands.len() - i,
                    {
                        let p = cands[i];
                        if self.can_put(p.0, p.1, player) && !Self::has_point(&r, p) {
                            let ghost before = r@;
                            r.push(p);
                            proof {
                                assert forall|k: int, l: int|
                                    0 <= k < r.len() && 0 <= l < r.len() && k != l implies r@[k]
                                    != r@[l] by {
                                    if k < before.len() && l < before.len() {
                                        assert(before[k] != before[l]);
                                    } else if k < before.len() {
                                        assert(before.contains(before[k]));
                                    } else if l < before.len() {
                                        assert(before.contains(before[l]));
                                    }
                                }
                            }
                        }
                        i = i + 1;
                    }
                    proof {
                        assert forall|a: int, b: int|
                            #[trigger] adjacent(qx as int, qy as int, a, b) && self@.legal(
                                a,
                                b,
                                *player,
                            ) implies r@.contains((a as u8, b as u8)) by {
                            let k = choose|k: int|
                                0 <= k < cands.len() && cands@[k] == (a as u8, b as u8);
                            assert(cands@[k] == (a as u8, b as u8));
                        }
                    }
                }
                qx = qx + 1;
            }
            qy = qy + 1;
        }
        proof {
            assert forall|p: (u8, u8)| #[trigger] r@.contains(p) <==> self@.moves(*player).contains(p) by {
                if r@.contains(p) {
                    let k = choose|k: int| 0 <= k < r.len() && r@[k] == p;
                    assert(r@[k] == p);
                }
                if self@.legal(p.0 as int, p.1 as int, *player) {
                    let q = lemma_legal_next_to_disc(self@, p.0 as int, p.1 as int, *player);
                    assert(adjacent(q.0, q.1, p.0 as int, p.1 as int));
                }
            }
        }
        r
    }

    /// Neither side can place a disc anywhere.
    pub fn is_game_over(&self) -> (r: bool)
        requires
            self.wf(),
        ensures
            r == self@.over(),
    {
        let black = self.puttable_points(&Color::Black);
        let white = self.puttable_points(&Color::White);
        proof {
            if black.len() > 0 {
                assert(black@.contains(black@[0]));
            } else {
                assert forall|p: (u8, u8)| !self@.moves(Color::Black).contains(p) by {
                    if self@.moves(Color::Black).contains(p) {
                        assert(black@.contains(p));
                    }
                }
                assert(self@.moves(Color::Black) =~= Set::empty());
            }
            if white.len() > 0 {
                assert(white@.contains(white@[0]));
            } else {
                assert forall|p: (u8, u8)| !self@.moves(Color::White).contains(p) by {
                    if self@.moves(Color::White).contains(p) {
                        assert(white@.contains(p));
                    }
                }
                assert(self@.moves(Color::White) =~= Set::empty());
            }
        }
        black.len() == 0 && white.len() == 0
    }

    /// Number of discs of `color` on the board.
    pub fn count(&self, color: Color) -> (r: usize)
        requires
            self.wf(),
        ensures
            r == self@.count(color),
    {
        let mut n: usize = 0;
        let mut i: usize = 0;
        while i < 64
            invariant
                self.wf(),
                i <= 64,
                n <= i,
                n == crate::model::count_in(self@.cells.subrange(0, i as int), color),
            decreases 64 - i,
        {
            assert(self@.cells.subrange(0, i + 1).drop_last() =~= self@.cells.subrange(0, i as int));
            if self.board[i] == Some(color) {
                n = n + 1;
            }
            i = i + 1;
        }
        assert(self@.cells.subrange(0, 64) =~= self@.cells);
        n
    }

    /// The result once neither side can move: the side with more discs, or a draw on equal
    /// counts; `None` while the game goes on.
    pub fn get_winner(&self) -> (r: Option<Winner>)
        requires
            self.wf(),
        ensures
            r == self@.outcome(),
    {
        if !self.is_game_over() {
            return None;
        }
        let black = self.count(Color::Black);
        let white = self.count(Color::White);
        if black > white {
            Some(Winner::Black)
        } else if black < white {
            Some(Winner::White)
        } else {
            Some(Winner::Draw)
        }
    }
}

} // verus!
