//! Laws of the board engine that span several operations, stated and proved
//! over the same spec functions that the operations' contracts use.

use vstd::prelude::*;
use crate::board::{Board, Cell, GameResult, lemma_cell_of_moves_contains};
use crate::movetext::{lemma_moves_text_round_trip, moves_text, parse_moves_text};
use crate::winspec::{
    gcell, has_five, in_range, is_dir, result_spec_ok, stone_at, valid_win_line, win_at,
};

verus! {

/// Occupancy: on any well-formed board a cell holds a stone exactly when its
/// coordinate was played, and no coordinate is played twice.
pub proof fn lemma_occupancy(b: Board)
    requires
        b.wf(),
    ensures
        forall|x: int, y: int|
            in_range(x, y) ==> (#[trigger] gcell(b.grid(), x, y) != Cell::Empty
                <==> b.spec_moves().contains((x as usize, y as usize))),
        forall|i: int, j: int|
            #![trigger b.spec_moves()[i], b.spec_moves()[j]]
            0 <= i < j < b.spec_moves().len() ==> b.spec_moves()[i] != b.spec_moves()[j],
{
    assert forall|x: int, y: int|
        in_range(x, y) implies (#[trigger] gcell(b.grid(), x, y) != Cell::Empty
        <==> b.spec_moves().contains((x as usize, y as usize))) by {
        lemma_cell_of_moves_contains(b.spec_moves(), x, y);
    }
}

/// Boards with the same move history show the same position: the grid is a
/// function of the history alone.
pub proof fn lemma_cells_determined(b1: Board, b2: Board)
    requires
        b1.wf(),
        b2.wf(),
        b1.spec_moves() == b2.spec_moves(),
    ensures
        forall|x: int, y: int|
            in_range(x, y) ==> #[trigger] gcell(b1.grid(), x, y) == gcell(b2.grid(), x, y),
{
}

/// Undo then redo is the identity: if `b2` relates to `b1` as `undo` leaves a
/// nonempty board, and `b3` relates to `b2` as `redo` does, then `b3` has
/// `b1`'s histories back, and shows the same position cell for cell.
pub proof fn lemma_undo_redo_inverse(b1: Board, b2: Board, b3: Board)
    requires
        b1.wf(),
        b2.wf(),
        b3.wf(),
        b1.spec_moves().len() > 0,
        b2.spec_moves() == b1.spec_moves().drop_last(),
        b2.spec_redo() == b1.spec_redo().push(b1.spec_moves().last()),
        b3.spec_moves() == b2.spec_moves().push(b2.spec_redo().last()),
        b3.spec_redo() == b2.spec_redo().drop_last(),
    ensures
        b3.spec_moves() == b1.spec_moves(),
        b3.spec_redo() == b1.spec_redo(),
        forall|x: int, y: int|
            in_range(x, y) ==> #[trigger] gcell(b3.grid(), x, y) == gcell(b1.grid(), x, y),
{
    assert(b2.spec_redo().last() == b1.spec_moves().last());
    assert(b3.spec_moves() =~= b1.spec_moves());
    assert(b3.spec_redo() =~= b1.spec_redo());
}

/// A run of six (or more) equal stones still decides the game: its first five
/// stones already are five in a row.
pub proof fn lemma_six_run_wins(g: Seq<Vec<Cell>>, c: Cell, x: int, y: int, dx: int, dy: int)
    requires
        c != Cell::Empty,
        is_dir(dx, dy),
        stone_at(g, c, x, y),
        stone_at(g, c, x + dx, y + dy),
        stone_at(g, c, x + 2 * dx, y + 2 * dy),
        stone_at(g, c, x + 3 * dx, y + 3 * dy),
        stone_at(g, c, x + 4 * dx, y + 4 * dy),
        stone_at(g, c, x + 5 * dx, y + 5 * dy),
    ensures
        has_five(g, c),
{
    assert(win_at(g, c, x, y, dx, dy));
}

/// When a board has exactly one five-stone window, of color `c`, the scan
/// reports `c` as the winner with exactly that window's five coordinates
/// (listed from the window's far end back to its start).
pub proof fn lemma_unique_win_line(
    g: Seq<Vec<Cell>>,
    c: Cell,
    r: GameResult,
    x: int,
    y: int,
    dx: int,
    dy: int,
)
    requires
        result_spec_ok(g, r),
        win_at(g, c, x, y, dx, dy),
        !has_five(g, c.spec_opponent()),
        forall|x2: int, y2: int, dx2: int, dy2: int|
            win_at(g, c, x2, y2, dx2, dy2) ==> x2 == x && y2 == y && dx2 == dx && dy2 == dy,
    ensures
        c == Cell::Black ==> (r matches GameResult::BlackWon(l) && l@.len() == 5 && l@[4] == (
            x as usize,
            y as usize,
        ) && l@[3] == (((x + dx) as usize, (y + dy) as usize)) && l@[2] == ((
            (x + 2 * dx) as usize,
            (y + 2 * dy) as usize,
        )) && l@[1] == (((x + 3 * dx) as usize, (y + 3 * dy) as usize)) && l@[0] == ((
            (x + 4 * dx) as usize,
            (y + 4 * dy) as usize,
        ))),
        c == Cell::White ==> (r matches GameResult::WhiteWon(l) && l@.len() == 5 && l@[4] == (
            x as usize,
            y as usize,
        ) && l@[3] == (((x + dx) as usize, (y + dy) as usize)) && l@[2] == ((
            (x + 2 * dx) as usize,
            (y + 2 * dy) as usize,
        )) && l@[1] == (((x + 3 * dx) as usize, (y + 3 * dy) as usize)) && l@[0] == ((
            (x + 4 * dx) as usize,
            (y + 4 * dy) as usize,
        ))),
{
    assert(has_five(g, c));
    assert(r.is_won());
    if c == Cell::Black {
        assert(!has_five(g, Cell::White));
        assert(r matches GameResult::BlackWon(_));
        if let GameResult::BlackWon(l) = r {
            assert(valid_win_line(g, Cell::Black, l@));
            let (x2, y2, dx2, dy2) = choose|x2: int, y2: int, dx2: int, dy2: int|
                {
                    &&& win_at(g, Cell::Black, x2, y2, dx2, dy2)
                    &&& l@[4] == (x2 as usize, y2 as usize)
                    &&& l@[3] == (((x2 + dx2) as usize, (y2 + dy2) as usize))
                    &&& l@[2] == (((x2 + 2 * dx2) as usize, (y2 + 2 * dy2) as usize))
                    &&& l@[1] == (((x2 + 3 * dx2) as usize, (y2 + 3 * dy2) as usize))
                    &&& l@[0] == (((x2 + 4 * dx2) as usize, (y2 + 4 * dy2) as usize))
                };
            assert(x2 == x && y2 == y && dx2 == dx && dy2 == dy);
        }
    } else {
        assert(c == Cell::White);
        assert(!has_five(g, Cell::Black));
        assert(r matches GameResult::WhiteWon(_));
        if let GameResult::WhiteWon(l) = r {
            assert(valid_win_line(g, Cell::White, l@));
            let (x2, y2, dx2, dy2) = choose|x2: int, y2: int, dx2: int, dy2: int|
                {
                    &&& win_at(g, Cell::White, x2, y2, dx2, dy2)
                    &&& l@[4] == (x2 as usize, y2 as usize)
                    &&& l@[3] == (((x2 + dx2) as usize, (y2 + dy2) as usize))
                    &&& l@[2] == (((x2 + 2 * dx2) as usize, (y2 + 2 * dy2) as usize))
                    &&& l@[1] == (((x2 + 3 * dx2) as usize, (y2 + 3 * dy2) as usize))
                    &&& l@[0] == (((x2 + 4 * dx2) as usize, (y2 + 4 * dy2) as usize))
                };
            assert(x2 == x && y2 == y && dx2 == dx && dy2 == dy);
        }
    }
}

/// One `undo` on the history pair (played moves, redo buffer): the last move,
/// if any, crosses from the history to the buffer.
pub open spec fn undo_hist(h: (Seq<(usize, usize)>, Seq<(usize, usize)>)) -> (
    Seq<(usize, usize)>,
    Seq<(usize, usize)>,
) {
    if h.0.len() == 0 {
        h
    } else {
        (h.0.drop_last(), h.1.push(h.0.last()))
    }
}

/// One `redo` on the history pair: the buffer's top move, if any, crosses
/// back to the history.
pub open spec fn redo_hist(h: (Seq<(usize, usize)>, Seq<(usize, usize)>)) -> (
    Seq<(usize, usize)>,
    Seq<(usize, usize)>,
) {
    if h.1.len() == 0 {
        h
    } else {
        (h.0.push(h.1.last()), h.1.drop_last())
    }
}

/// `undo_hist` applied `k` times.
pub open spec fn undo_hist_n(h: (Seq<(usize, usize)>, Seq<(usize, usize)>), k: nat) -> (
    Seq<(usize, usize)>,
    Seq<(usize, usize)>,
)
    decreases k,
{
    if k == 0 {
        h
    } else {
        undo_hist_n(undo_hist(h), (k - 1) as nat)
    }
}

/// `redo_hist` applied `k` times.
pub open spec fn redo_hist_n(h: (Seq<(usize, usize)>, Seq<(usize, usize)>), k: nat) -> (
    Seq<(usize, usize)>,
    Seq<(usize, usize)>,
)
    decreases k,
{
    if k == 0 {
        h
    } else {
        redo_hist_n(redo_hist(h), (k - 1) as nat)
    }
}

/// Iterating from the inside or from the outside is the same.
proof fn lemma_undo_hist_n_shift(h: (Seq<(usize, usize)>, Seq<(usize, usize)>), k: nat)
    requires
        k >= 1,
    ensures
        undo_hist_n(h, k) == undo_hist(undo_hist_n(h, (k - 1) as nat)),
    decreases k,
{
    if k == 1 {
        assert(undo_hist_n(h, 1) == undo_hist_n(undo_hist(h), 0));
        assert(undo_hist_n(undo_hist(h), 0) == undo_hist(h));
        assert(undo_hist_n(h, 0) == h);
    } else {
        lemma_undo_hist_n_shift(undo_hist(h), (k - 1) as nat);
        assert(undo_hist_n(h, k) == undo_hist_n(undo_hist(h), (k - 1) as nat));
        assert(undo_hist_n(h, (k - 1) as nat) == undo_hist_n(undo_hist(h), (k - 2) as nat));
    }
}

/// Undone moves leave the history one by one.
proof fn lemma_undo_hist_n_len(h: (Seq<(usize, usize)>, Seq<(usize, usize)>), k: nat)
    requires
        k <= h.0.len(),
    ensures
        undo_hist_n(h, k).0.len() == h.0.len() - k,
    decreases k,
{
    if k > 0 {
        lemma_undo_hist_n_len(undo_hist(h), (k - 1) as nat);
    }
}

/// Undoing any number of moves and then redoing as many restores the history
/// pair exactly.  In particular, undoing everything and redoing everything
/// brings the redo buffer back to where it started.
pub proof fn lemma_undo_redo_n_inverse(h: (Seq<(usize, usize)>, Seq<(usize, usize)>), k: nat)
    requires
        k <= h.0.len(),
    ensures
        redo_hist_n(undo_hist_n(h, k), k) == h,
    decreases k,
{
    if k > 0 {
        let u = undo_hist_n(h, (k - 1) as nat);
        lemma_undo_hist_n_shift(h, k);
        lemma_undo_hist_n_len(h, (k - 1) as nat);
        assert(u.0.len() > 0);
        assert(redo_hist(undo_hist(u)) == u) by {
            assert(u.0.drop_last().push(u.0.last()) =~= u.0);
            assert(u.1.push(u.0.last()).drop_last() =~= u.1);
        }
        lemma_undo_redo_n_inverse(h, (k - 1) as nat);
        assert(undo_hist_n(h, k) == undo_hist(u));
        assert(redo_hist_n(undo_hist(u), k) == redo_hist_n(redo_hist(undo_hist(u)), (k - 1) as nat));
        assert(redo_hist_n(u, (k - 1) as nat) == h);
    }
}

/// Saving then loading restores the game: the saved move list text parses
/// back to exactly the board's moves (a board rebuilt from those moves then
/// shows the same position cell for cell, by `lemma_cells_determined`).
pub proof fn lemma_save_load_round_trip(b: Board)
    requires
        b.wf(),
    ensures
        parse_moves_text(moves_text(b.spec_moves())) == Some(b.spec_moves()),
{
    lemma_moves_text_round_trip(b.spec_moves());
}

} // verus!
