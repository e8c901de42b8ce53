//! Properties of the rules that hold of every position.
use vstd::prelude::*;
use crate::color::Color;
use crate::model::{
    count_in, in_bounds, index_of, is_dir, lemma_flipped_opposing, occupied_in, reach, Board,
};

verus! {

/// A legal move only ever names an empty cell.
pub proof fn lemma_moves_are_empty(board: Board, c: Color, p: (u8, u8))
    requires
        board.wf(),
        board.moves(c).contains(p),
    ensures
        board.cell(p.0 as int, p.1 as int) is None,
{
}

/// The game is over exactly when neither side has a legal move, and no result exists
/// before that.
pub proof fn lemma_outcome_only_when_over(board: Board)
    requires
        board.wf(),
    ensures
        board.over() <==> board.moves(Color::Black).is_empty() && board.moves(
            Color::White,
        ).is_empty(),
        !board.over() ==> board.outcome() is None,
        board.over() ==> board.outcome() is Some,
{
}

/// The discs of both sides together are the occupied cells.
proof fn lemma_counts_cover_occupied(s: Seq<Option<Color>>)
    ensures
        count_in(s, Color::Black) + count_in(s, Color::White) == occupied_in(s),
    decreases s.len(),
{
    if s.len() > 0 {
        lemma_counts_cover_occupied(s.drop_last());
        match s.last() {
            Some(Color::Black) => {},
            Some(Color::White) => {},
            None => {},
        }
    }
}

/// Filling one empty cell, and only that, adds one to the occupied cells.
proof fn lemma_occupied_one_more(s: Seq<Option<Color>>, t: Seq<Option<Color>>, k: int)
    requires
        s.len() == t.len(),
        0 <= k < s.len(),
        s[k] is None,
        t[k] is Some,
        forall|i: int| 0 <= i < s.len() && i != k ==> (s[i] is Some <==> t[i] is Some),
    ensures
        occupied_in(t) == occupied_in(s) + 1,
    decreases s.len(),
{
    if k == s.len() - 1 {
        lemma_occupied_same(s.drop_last(), t.drop_last());
    } else {
        lemma_occupied_one_more(s.drop_last(), t.drop_last(), k);
    }
}

/// Sequences occupied at the same places have as many occupied cells.
proof fn lemma_occupied_same(s: Seq<Option<Color>>, t: Seq<Option<Color>>)
    requires
        s.len() == t.len(),
        forall|i: int| 0 <= i < s.len() ==> (s[i] is Some <==> t[i] is Some),
    ensures
        occupied_in(t) == occupied_in(s),
    decreases s.len(),
{
    if s.len() > 0 {
        lemma_occupied_same(s.drop_last(), t.drop_last());
    }
}

/// A move adds exactly one disc to the board: captures turn discs over and remove none.
pub proof fn lemma_place_adds_one_disc(before: Board, after: Board, x: int, y: int, c: Color)
    requires
        before.wf(),
        after.wf(),
        before.legal(x, y, c),
        forall|a: int, b: int|
            in_bounds(a, b) ==> #[trigger] after.cell(a, b) == before.placed_cell(x, y, c, a, b),
    ensures
        after.count(Color::Black) + after.count(Color::White) == before.count(Color::Black)
            + before.count(Color::White) + 1,
{
    let k = index_of(x, y);
    assert forall|i: int| 0 <= i < 64 && i != k implies (before.cells[i] is Some
        <==> after.cells[i] is Some) by {
        let a = i % 8;
        let b = i / 8;
        assert(index_of(a, b) == i);
        assert(after.cell(a, b) == before.placed_cell(x, y, c, a, b));
        if before.flipped(x, y, c, a, b) {
            lemma_flipped_opposing(before, x, y, c, a, b);
        }
    }
    assert(after.cell(x, y) == before.placed_cell(x, y, c, x, y));
    lemma_occupied_one_more(before.cells, after.cells, k);
    lemma_counts_cover_occupied(before.cells);
    lemma_counts_cover_occupied(after.cells);
}

/// What lies `k` steps from `(x, y)` along `(dx, dy)`.
pub open spec fn ray_cell(board: Board, x: int, y: int, dx: int, dy: int, k: int) -> Option<Color> {
    board.cell(x + k * dx, y + k * dy)
}

/// From step `j` on, `m` discs opposing `c` follow one another along the ray, and a disc of
/// `c` comes right after them.
pub open spec fn closed_from(
    board: Board,
    x: int,
    y: int,
    dx: int,
    dy: int,
    c: Color,
    j: int,
    m: int,
) -> bool {
    &&& forall|i: int|
        j <= i < j + m ==> #[trigger] ray_cell(board, x, y, dx, dy, i) == Some(c.opposite())
    &&& ray_cell(board, x, y, dx, dy, j + m) == Some(c)
}

/// `(a, b)` is the `k`-th of `n >= 1` opposing discs next to `(x, y)` along `(dx, dy)` that a
/// disc of `c` closes: the maximal run, ended by a disc of `c` before an empty cell or the edge.
pub open spec fn in_closed_run(
    board: Board,
    x: int,
    y: int,
    dx: int,
    dy: int,
    c: Color,
    n: int,
    k: int,
    a: int,
    b: int,
) -> bool {
    &&& 1 <= n
    &&& closed_from(board, x, y, dx, dy, c, 1, n)
    &&& 1 <= k <= n
    &&& a == x + k * dx
    &&& b == y + k * dy
}

proof fn lemma_next_step(x: int, dx: int, j: int)
    ensures
        x + (j + 1) * dx == x + j * dx + dx,
{
    assert(x + (j + 1) * dx == x + j * dx + dx) by (nonlinear_arith);
}

/// The walk from step `j` counts `m` opposing discs exactly when `m` of them are closed by `c`.
proof fn lemma_run_closed(
    board: Board,
    x: int,
    y: int,
    dx: int,
    dy: int,
    c: Color,
    j: int,
    m: int,
)
    requires
        is_dir(dx, dy),
        m >= 0,
    ensures
        board.run(x + j * dx, y + j * dy, dx, dy, c) == Some(m as nat) <==> closed_from(
            board,
            x,
            y,
            dx,
            dy,
            c,
            j,
            m,
        ),
    decreases reach(x + j * dx, dx) + reach(y + j * dy, dy),
{
    let px = x + j * dx;
    let py = y + j * dy;
    lemma_next_step(x, dx, j);
    lemma_next_step(y, dy, j);
    assert(ray_cell(board, x, y, dx, dy, j) == board.cell(px, py));
    if in_bounds(px, py) && board.cell(px, py) == Some(c.opposite()) {
        if m == 0 {
            assert(c != c.opposite());
        } else {
            lemma_run_closed(board, x, y, dx, dy, c, j + 1, m - 1);
            if closed_from(board, x, y, dx, dy, c, j, m) {
                assert(closed_from(board, x, y, dx, dy, c, j + 1, m - 1));
            }
        }
        if m > 0 && closed_from(board, x, y, dx, dy, c, j + 1, m - 1) {
            assert forall|i: int| j <= i < j + m implies #[trigger] ray_cell(board, x, y, dx, dy, i)
                == Some(c.opposite()) by {
                if i > j {
                    assert(ray_cell(board, x, y, dx, dy, i) == Some(c.opposite()));
                }
            }
        }
    } else if m > 0 && closed_from(board, x, y, dx, dy, c, j, m) {
        assert(ray_cell(board, x, y, dx, dy, j) == Some(c.opposite()));
    }
}

/// A disc at step `i >= j` reached through opposing discs only lies on the walk from step `j`.
proof fn lemma_on_run_from_ray(
    board: Board,
    x: int,
    y: int,
    dx: int,
    dy: int,
    c: Color,
    j: int,
    i: int,
)
    requires
        is_dir(dx, dy),
        j <= i,
        forall|l: int| j <= l <= i ==> #[trigger] ray_cell(board, x, y, dx, dy, l) == Some(c.opposite()),
    ensures
        board.on_run(x + j * dx, y + j * dy, dx, dy, c, x + i * dx, y + i * dy),
    decreases i - j,
{
    lemma_next_step(x, dx, j);
    lemma_next_step(y, dy, j);
    assert(ray_cell(board, x, y, dx, dy, j) == Some(c.opposite()));
    if j < i {
        lemma_on_run_from_ray(board, x, y, dx, dy, c, j + 1, i);
    }
}

/// Every disc on the walk from step `j` is at some step `i >= j`, reached through opposing
/// discs only.
proof fn lemma_on_run_to_ray(
    board: Board,
    x: int,
    y: int,
    dx: int,
    dy: int,
    c: Color,
    j: int,
    a: int,
    b: int,
) -> (i: int)
    requires
        is_dir(dx, dy),
        board.on_run(x + j * dx, y + j * dy, dx, dy, c, a, b),
    ensures
        j <= i,
        a == x + i * dx,
        b == y + i * dy,
        forall|l: int| j <= l <= i ==> #[trigger] ray_cell(board, x, y, dx, dy, l) == Some(c.opposite()),
    decreases reach(x + j * dx, dx) + reach(y + j * dy, dy),
{
    lemma_next_step(x, dx, j);
    lemma_next_step(y, dy, j);
    lemma_on_run_opposing_here(board, x + j * dx, y + j * dy, dx, dy, c, a, b);
    assert(ray_cell(board, x, y, dx, dy, j) == board.cell(x + j * dx, y + j * dy));
    if a == x + j * dx && b == y + j * dy {
        j
    } else {
        let i = lemma_on_run_to_ray(board, x, y, dx, dy, c, j + 1, a, b);
        assert forall|l: int| j <= l <= i implies #[trigger] ray_cell(board, x, y, dx, dy, l)
            == Some(c.opposite()) by {
            if l > j {
                assert(ray_cell(board, x, y, dx, dy, l) == Some(c.opposite()));
            }
        }
        i
    }
}

/// The first cell of a walk that passes any disc holds an opposing disc.
proof fn lemma_on_run_opposing_here(
    board: Board,
    px: int,
    py: int,
    dx: int,
    dy: int,
    c: Color,
    a: int,
    b: int,
)
    requires
        board.on_run(px, py, dx, dy, c, a, b),
    ensures
        board.cell(px, py) == Some(c.opposite()),
{
}

/// The discs that a move turns over are exactly, over the eight directions, the maximal runs
/// of opposing discs next to the new disc that a disc of the mover closes before any empty
/// cell or the edge.
pub proof fn lemma_flips_are_closed_runs(board: Board, x: int, y: int, c: Color, a: int, b: int)
    requires
        board.wf(),
        board.legal(x, y, c),
        in_bounds(a, b),
        !(a == x && b == y),
    ensures
        board.placed_cell(x, y, c, a, b) != board.cell(a, b) <==> exists|
            dx: int,
            dy: int,
            n: int,
            k: int,
        | is_dir(dx, dy) && #[trigger] in_closed_run(board, x, y, dx, dy, c, n, k, a, b),
{
    if board.flipped(x, y, c, a, b) {
        lemma_flipped_opposing(board, x, y, c, a, b);
        let (dx, dy) = choose|dx: int, dy: int|
            is_dir(dx, dy) && #[trigger] board.flips_in(x, y, dx, dy, c, a, b);
        let n = board.run(x + dx, y + dy, dx, dy, c).unwrap() as int;
        assert(x + 1 * dx == x + dx && y + 1 * dy == y + dy);
        lemma_run_closed(board, x, y, dx, dy, c, 1, n);
        let k = lemma_on_run_to_ray(board, x, y, dx, dy, c, 1, a, b);
        if k > n {
            assert(ray_cell(board, x, y, dx, dy, n + 1) == Some(c.opposite()));
        }
        assert(in_closed_run(board, x, y, dx, dy, c, n, k, a, b));
    } else {
        assert(board.placed_cell(x, y, c, a, b) == board.cell(a, b));
        if exists|dx: int, dy: int, n: int, k: int|
            is_dir(dx, dy) && #[trigger] in_closed_run(board, x, y, dx, dy, c, n, k, a, b) {
            let (dx, dy, n, k) = choose|dx: int, dy: int, n: int, k: int|
                is_dir(dx, dy) && #[trigger] in_closed_run(board, x, y, dx, dy, c, n, k, a, b);
            assert(x + 1 * dx == x + dx && y + 1 * dy == y + dy);
            lemma_run_closed(board, x, y, dx, dy, c, 1, n);
            assert forall|l: int| 1 <= l <= k implies #[trigger] ray_cell(board, x, y, dx, dy, l)
                == Some(c.opposite()) by {
                assert(ray_cell(board, x, y, dx, dy, l) == Some(c.opposite()));
            }
            lemma_on_run_from_ray(board, x, y, dx, dy, c, 1, k);
            assert(board.flips_in(x, y, dx, dy, c, a, b));
        }
    }
}

} // verus!
