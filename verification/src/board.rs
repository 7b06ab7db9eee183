//! The board: grid of cells, move history with undo/redo, and win detection.

use vstd::prelude::*;
use crate::gamestate::PlayerInt;
use crate::winspec::{
    in_range, gcell, grid_wf, is_dir, stone_at, win_at, valid_win_line, line_cells, run_at,
    seq_has_run, seq_has_empty, fam_line, scanned_run, fold_ok, result_spec_ok,
    lemma_scanned_run_step1, lemma_scanned_run_step2, lemma_scanned_empty_step1,
    lemma_scanned_empty_step2, lemma_scanned_run_sound, lemma_all_lines_runs,
    lemma_all_lines_empty, lemma_take_no_new_run, lemma_take_empty_step, step_n,
    lemma_step_n_shift, run_coords, pos_pair, line_win, lemma_run_end_none, lemma_run_end_found,
    first_win, fam_line_win, scan_win1, scan_win2,
};

verus! {

/// Side length of the square board.
pub const MAP_SIZE: usize = 15;

/// Occupancy of one grid position: empty, or a stone of one of the two colors.
#[derive(Debug, Copy, Clone, Eq, PartialEq, Structural)]
pub enum Cell {
    Empty,
    Black,
    White,
}

impl Default for Cell {
    /// A fresh cell holds no stone.
    fn default() -> (r: Self)
        ensures
            r == Cell::Empty,
    {
        Cell::Empty
    }
}

impl Cell {
    /// The other color; `Empty` has no opponent and maps to itself.
    pub open spec fn spec_opponent(self) -> Cell {
        match self {
            Cell::Black => Cell::White,
            Cell::White => Cell::Black,
            Cell::Empty => Cell::Empty,
        }
    }

    /// The other color; `Empty` has no opponent and maps to itself.
    pub fn opponent(self) -> (r: Cell)
        ensures
            r == self.spec_opponent(),
    {
        match self {
            Cell::Black => Cell::White,
            Cell::White => Cell::Black,
            _ => Cell::Empty,
        }
    }
}

/// Outcome of scanning a position: still open, won by a color (with the five
/// winning coordinates), or drawn.
#[derive(Debug, Eq, PartialEq, Clone)]
pub enum GameResult {
    NotFinished,
    BlackWon(Vec<(usize, usize)>),
    WhiteWon(Vec<(usize, usize)>),
    Draw,
}

impl GameResult {
    /// Whether this result is decided for one of the two colors.
    pub open spec fn is_won(self) -> bool {
        self matches GameResult::BlackWon(_) || self matches GameResult::WhiteWon(_)
    }

    /// Fold two partial results into one, later lines feeding the right side:
    /// a decisive result wins over everything, an undecided line wins over a
    /// drawn one.
    pub fn or(self, res: GameResult) -> (r: GameResult)
        ensures
            self.is_won() ==> r == self,
            !self.is_won() && res.is_won() ==> r == res,
            !self.is_won() && !res.is_won() ==> (r == GameResult::NotFinished <==> (
                self == GameResult::NotFinished || res == GameResult::NotFinished)),
            !self.is_won() && !res.is_won() ==> (r == GameResult::Draw <==> (
                self == GameResult::Draw && res == GameResult::Draw)),
    {
        match (self, res) {
            (GameResult::NotFinished, GameResult::Draw) => GameResult::NotFinished,
            (GameResult::NotFinished, r) => r,
            (GameResult::Draw, r) => r,
            (r, _) => r,
        }
    }

    /// Message shown for a finished game; empty while the game is open.
    pub fn win_text(&self) -> (r: String)
        ensures
            self matches GameResult::BlackWon(_) ==> r@ == "Black won"@,
            self matches GameResult::WhiteWon(_) ==> r@ == "White won"@,
            *self == GameResult::Draw ==> r@ == "It's a draw"@,
            *self == GameResult::NotFinished ==> r@ == ""@,
    {
        match self {
            GameResult::BlackWon(_) => "Black won",
            GameResult::WhiteWon(_) => "White won",
            GameResult::Draw => "It's a draw",
            _ => "",
        }
        .to_owned()
    }

    /// Whether the game is over (won by either side, or drawn).
    pub fn over(&self) -> (r: bool)
        ensures
            r == (self.is_won() || *self == GameResult::Draw),
    {
        match self {
            GameResult::BlackWon(_) | GameResult::WhiteWon(_) | GameResult::Draw => true,
            _ => false,
        }
    }
}

/// Why a requested move was refused: the cell is off the board or already
/// occupied, or there is no undone move waiting to be replayed.
#[derive(Debug, Copy, Clone, PartialEq, Eq, Structural)]
pub enum MoveError {
    InvalidMove,
    NoRedoAvailable,
}

/// Color that the ply with 0-based index `k` plays: Black opens, then the
/// colors alternate.
pub open spec fn color_of_ply(k: int) -> Cell {
    if k % 2 == 0 {
        Cell::Black
    } else {
        Cell::White
    }
}

/// The cell contents that a history of moves dictates at `(x, y)`: the color
/// of the ply that played `(x, y)`, or `Empty` if no ply did.
pub open spec fn cell_of_moves(ms: Seq<(usize, usize)>, x: int, y: int) -> Cell
    decreases ms.len(),
{
    if ms.len() == 0 {
        Cell::Empty
    } else if ms.last().0 == x && ms.last().1 == y {
        color_of_ply(ms.len() - 1)
    } else {
        cell_of_moves(ms.drop_last(), x, y)
    }
}

/// A well-formed move history: every coordinate on the board, no coordinate
/// played twice.
pub open spec fn moves_wf(ms: Seq<(usize, usize)>) -> bool {
    &&& forall|i: int|
        0 <= i < ms.len() ==> in_range((#[trigger] ms[i]).0 as int, ms[i].1 as int)
    &&& forall|i: int, j: int| #![trigger ms[i], ms[j]] 0 <= i < j < ms.len() ==> ms[i] != ms[j]
}

/// A well-formed redo buffer: coordinates on the board, none listed twice, and
/// none currently occupied (played in `ms`).
pub open spec fn redo_wf(ms: Seq<(usize, usize)>, rs: Seq<(usize, usize)>) -> bool {
    &&& forall|i: int|
        0 <= i < rs.len() ==> in_range((#[trigger] rs[i]).0 as int, rs[i].1 as int)
    &&& forall|i: int, j: int| #![trigger rs[i], rs[j]] 0 <= i < j < rs.len() ==> rs[i] != rs[j]
    &&& forall|i: int, j: int|
        #![trigger ms[i], rs[j]]
        0 <= i < ms.len() && 0 <= j < rs.len() ==> ms[i] != rs[j]
}

/// The grid shows exactly what the move history dictates.
pub open spec fn grid_matches_moves(g: Seq<Vec<Cell>>, ms: Seq<(usize, usize)>) -> bool {
    forall|x: int, y: int| in_range(x, y) ==> #[trigger] gcell(g, x, y) == cell_of_moves(ms, x, y)
}

/// Appending one move changes the dictated contents only at that move's cell,
/// which takes the color of the new ply.
pub proof fn lemma_cell_of_moves_push(ms: Seq<(usize, usize)>, m: (usize, usize), x: int, y: int)
    ensures
        cell_of_moves(ms.push(m), x, y) == if m.0 == x && m.1 == y {
            color_of_ply(ms.len() as int)
        } else {
            cell_of_moves(ms, x, y)
        },
{
    assert(ms.push(m).drop_last() =~= ms);
    assert(ms.push(m).last() == m);
}

/// The dictated contents of a cell is a stone exactly when some ply played
/// that cell.
pub proof fn lemma_cell_of_moves_contains(ms: Seq<(usize, usize)>, x: int, y: int)
    requires
        in_range(x, y),
    ensures
        cell_of_moves(ms, x, y) != Cell::Empty <==> ms.contains((x as usize, y as usize)),
    decreases ms.len(),
{
    if ms.len() > 0 {
        lemma_cell_of_moves_contains(ms.drop_last(), x, y);
        assert(forall|i: int|
            0 <= i < ms.len() - 1 ==> #[trigger] ms.drop_last()[i] == ms[i]);
        if ms.last().0 == x && ms.last().1 == y {
            assert(ms[ms.len() - 1] == (x as usize, y as usize));
        } else {
            if ms.contains((x as usize, y as usize)) {
                let i = choose|i: int| 0 <= i < ms.len() && ms[i] == (x as usize, y as usize);
                assert(i < ms.len() - 1);
                assert(ms.drop_last()[i] == (x as usize, y as usize));
            }
            if ms.drop_last().contains((x as usize, y as usize)) {
                let i = choose|i: int|
                    0 <= i < ms.len() - 1 && ms.drop_last()[i] == (x as usize, y as usize);
                assert(ms[i] == (x as usize, y as usize));
            }
        }
    }
}

/// The playing surface: a 15 x 15 grid of cells together with the ordered
/// move history and the redo buffer of undone moves.
///
/// The grid is redundant bookkeeping: well-formedness ties every cell to the
/// move history, so that the history alone dictates the whole position.
#[derive(Debug, Clone, PartialEq)]
pub struct Board {
    pub cells: Vec<Vec<Cell>>,
    pub moves: Vec<(usize, usize)>,
    pub redo_stack: Vec<(usize, usize)>,
}

impl Board {
    /// The grid, one row vector per x coordinate.
    pub open spec fn grid(&self) -> Seq<Vec<Cell>> {
        self.cells@
    }

    /// The move history, in play order.
    pub open spec fn spec_moves(&self) -> Seq<(usize, usize)> {
        self.moves@
    }

    /// The redo buffer, most recently undone move last.
    pub open spec fn spec_redo(&self) -> Seq<(usize, usize)> {
        self.redo_stack@
    }

    /// Well-formedness: full 15 x 15 grid, sound histories, and a grid that
    /// shows exactly the played moves.
    pub open spec fn wf(&self) -> bool {
        &&& grid_wf(self.grid())
        &&& moves_wf(self.spec_moves())
        &&& redo_wf(self.spec_moves(), self.spec_redo())
        &&& grid_matches_moves(self.grid(), self.spec_moves())
    }
}

impl Default for Board {
    /// An empty board: no stones, no history, nothing to redo.
    fn default() -> (r: Self)
        ensures
            r.wf(),
            r.spec_moves().len() == 0,
            r.spec_redo().len() == 0,
            forall|x: int, y: int| in_range(x, y) ==> gcell(r.grid(), x, y) == Cell::Empty,
    {
        let mut cells: Vec<Vec<Cell>> = Vec::new();
        let mut x: usize = 0;
        while x < MAP_SIZE
            invariant
                x <= 15,
                cells@.len() == x,
                forall|i: int| 0 <= i < x ==> (#[trigger] cells@[i])@.len() == 15,
                forall|i: int, j: int|
                    0 <= i < x && 0 <= j < 15 ==> #[trigger] cells@[i]@[j] == Cell::Empty,
            decreases 15 - x,
        {
            let mut row: Vec<Cell> = Vec::new();
            let mut y: usize = 0;
            while y < MAP_SIZE
                invariant
                    y <= 15,
                    row@.len() == y,
                    forall|j: int| 0 <= j < y ==> #[trigger] row@[j] == Cell::Empty,
                decreases 15 - y,
            {
                row.push(Cell::Empty);
                y = y + 1;
            }
            cells.push(row);
            x = x + 1;
        }
        let r = Board { cells, moves: Vec::new(), redo_stack: Vec::new() };
        assert(r.wf()) by {
            assert(forall|x: int, y: int|
                in_range(x, y) ==> #[trigger] gcell(r.grid(), x, y) == Cell::Empty);
        }
        r
    }
}

/// Walks a straight line over a grid: starts at `p` and steps by `v` until a
/// coordinate leaves the board.
pub struct BoardLineIterator<'a> {
    pub p: (i32, i32),
    pub v: (i32, i32),
    pub cells: &'a Vec<Vec<Cell>>,
}

impl<'a> BoardLineIterator<'a> {
    /// The iterator walks a full grid along one of the four scan directions.
    pub open spec fn wf(&self) -> bool {
        grid_wf(self.cells@) && is_dir(self.v.0 as int, self.v.1 as int)
    }

    /// The cell under the cursor, advancing the cursor one step; `None` once
    /// the cursor has left the board.
    pub fn next(&mut self) -> (r: Option<Cell>)
        requires
            old(self).wf(),
        ensures
            final(self).v == old(self).v,
            final(self).cells == old(self).cells,
            !in_range(old(self).p.0 as int, old(self).p.1 as int) ==> r == None::<Cell>
                && final(self).p == old(self).p,
            in_range(old(self).p.0 as int, old(self).p.1 as int) ==> r == Some(
                gcell(old(self).cells@, old(self).p.0 as int, old(self).p.1 as int),
            ) && final(self).p.0 == old(self).p.0 + old(self).v.0 && final(self).p.1 == old(
                self,
            ).p.1 + old(self).v.1,
    {
        if self.p.0 < 0 || self.p.1 < 0 || self.p.0 >= MAP_SIZE as i32 || self.p.1 >= MAP_SIZE as i32 {
            return None;
        }
        let cell = self.cells[self.p.0 as usize][self.p.1 as usize];
        self.p = (self.p.0 + self.v.0, self.p.1 + self.v.1);
        Some(cell)
    }

    /// The five positions the cursor just walked over, last one first.
    pub fn last5(&self) -> (r: Vec<(usize, usize)>)
        requires
            self.wf(),
            in_range(self.p.0 - self.v.0 as int, self.p.1 - self.v.1 as int),
            in_range(self.p.0 - 2 * self.v.0 as int, self.p.1 - 2 * self.v.1 as int),
            in_range(self.p.0 - 3 * self.v.0 as int, self.p.1 - 3 * self.v.1 as int),
            in_range(self.p.0 - 4 * self.v.0 as int, self.p.1 - 4 * self.v.1 as int),
            in_range(self.p.0 - 5 * self.v.0 as int, self.p.1 - 5 * self.v.1 as int),
        ensures
            r@.len() == 5,
            r@[0] == (((self.p.0 - self.v.0) as usize, (self.p.1 - self.v.1) as usize)),
            r@[1] == (((self.p.0 - 2 * self.v.0) as usize, (self.p.1 - 2 * self.v.1) as usize)),
            r@[2] == (((self.p.0 - 3 * self.v.0) as usize, (self.p.1 - 3 * self.v.1) as usize)),
            r@[3] == (((self.p.0 - 4 * self.v.0) as usize, (self.p.1 - 4 * self.v.1) as usize)),
            r@[4] == (((self.p.0 - 5 * self.v.0) as usize, (self.p.1 - 5 * self.v.1) as usize)),
    {
        let (p, v) = (self.p, self.v);
        let mut r: Vec<(usize, usize)> = Vec::new();
        r.push(((p.0 - v.0) as usize, (p.1 - v.1) as usize));
        r.push(((p.0 - 2 * v.0) as usize, (p.1 - 2 * v.1) as usize));
        r.push(((p.0 - 3 * v.0) as usize, (p.1 - 3 * v.1) as usize));
        r.push(((p.0 - 4 * v.0) as usize, (p.1 - 4 * v.1) as usize));
        r.push(((p.0 - 5 * v.0) as usize, (p.1 - 5 * v.1) as usize));
        r
    }
}

impl Board {
    /// Scan one line for the first run of five equal stones, tracking whether
    /// the line still has empty cells: decided lines report the winning five
    /// coordinates, otherwise a line with room is `NotFinished` and a packed
    /// line is `Draw`.
    #[verifier::loop_isolation(false)]
    fn check_line(line: BoardLineIterator) -> (r: GameResult)
        requires
            line.wf(),
        ensures
            ({
                let g = line.cells@;
                let s = line_cells(
                    g,
                    line.p.0 as int,
                    line.p.1 as int,
                    line.v.0 as int,
                    line.v.1 as int,
                );
                let w = line_win(
                    g,
                    line.p.0 as int,
                    line.p.1 as int,
                    line.v.0 as int,
                    line.v.1 as int,
                );
                &&& (r matches GameResult::BlackWon(l) ==> seq_has_run(s, Cell::Black)
                    && valid_win_line(g, Cell::Black, l@))
                &&& (r matches GameResult::WhiteWon(l) ==> seq_has_run(s, Cell::White)
                    && valid_win_line(g, Cell::White, l@))
                &&& (r.is_won() <==> (seq_has_run(s, Cell::Black) || seq_has_run(s, Cell::White)))
                &&& (!r.is_won() ==> (r == GameResult::NotFinished <==> seq_has_empty(s)))
                &&& (!r.is_won() ==> (r == GameResult::NotFinished || r == GameResult::Draw))
                &&& (r.is_won() <==> w is Some)
                &&& (r matches GameResult::BlackWon(l) ==> w == Some((Cell::Black, l@)))
                &&& (r matches GameResult::WhiteWon(l) ==> w == Some((Cell::White, l@)))
            }),
    {
        let mut line = line;
        let ghost g = line.cells@;
        let ghost v = (line.v.0 as int, line.v.1 as int);
        let ghost p0 = (line.p.0 as int, line.p.1 as int);
        let ghost s = line_cells(g, p0.0, p0.1, v.0, v.1);
        let mut stack: Vec<Cell> = Vec::new();
        let mut has_space = false;
        let ghost mut i: int = 0;
        loop
            invariant
                line.wf(),
                line.cells@ == g,
                line.v.0 as int == v.0,
                line.v.1 as int == v.1,
                s == line_cells(g, p0.0, p0.1, v.0, v.1),
                0 <= i <= s.len(),
                (line.p.0 as int, line.p.1 as int) == step_n(p0, v, i),
                line_cells(g, line.p.0 as int, line.p.1 as int, v.0, v.1) == s.skip(i),
                stack@.len() <= 4,
                stack@.len() <= i,
                forall|j: int| 0 <= j < stack@.len() ==> #[trigger] stack@[j] == stack@[0],
                stack@.len() > 0 ==> stack@[0] != Cell::Empty,
                forall|k: int| i - stack@.len() <= k < i ==> #[trigger] s[k] == stack@[0],
                stack@.len() > 0 && stack@.len() < i ==> s[i - stack@.len() - 1] != stack@[0],
                stack@.len() == 0 && i > 0 ==> s[i - 1] == Cell::Empty,
                !seq_has_run(s.take(i), Cell::Black),
                !seq_has_run(s.take(i), Cell::White),
                has_space <==> seq_has_empty(s.take(i)),
                stack@.len() >= 1 ==> stone_at(
                    g,
                    stack@[0],
                    line.p.0 as int - v.0,
                    line.p.1 as int - v.1,
                ),
                stack@.len() >= 2 ==> stone_at(
                    g,
                    stack@[0],
                    line.p.0 as int - 2 * v.0,
                    line.p.1 as int - 2 * v.1,
                ),
                stack@.len() >= 3 ==> stone_at(
                    g,
                    stack@[0],
                    line.p.0 as int - 3 * v.0,
                    line.p.1 as int - 3 * v.1,
                ),
                stack@.len() >= 4 ==> stone_at(
                    g,
                    stack@[0],
                    line.p.0 as int - 4 * v.0,
                    line.p.1 as int - 4 * v.1,
                ),
            decreases s.len() - i,
        {
            let ghost pre_p = (line.p.0 as int, line.p.1 as int);
            let step = line.next();
            match step {
                None => {
                    proof {
                        assert(!in_range(pre_p.0, pre_p.1));
                        assert(s.skip(i).len() == 0);
                        assert(s.take(i) =~= s);
                        assert(s.take(i) == s);
                        lemma_run_end_none(s, 0);
                        assert(line_win(g, p0.0, p0.1, v.0, v.1) is None);
                    }
                    if has_space {
                        return GameResult::NotFinished;
                    } else {
                        return GameResult::Draw;
                    }
                },
                Some(cell) => {
                    proof {
                        assert(in_range(pre_p.0, pre_p.1));
                        assert(s.skip(i) == seq![gcell(g, pre_p.0, pre_p.1)] + line_cells(
                            g,
                            pre_p.0 + v.0,
                            pre_p.1 + v.1,
                            v.0,
                            v.1,
                        ));
                        assert(i < s.len());
                        assert(s.skip(i)[0] == s[i]);
                        assert(cell == s[i]);
                        let t = line_cells(g, pre_p.0 + v.0, pre_p.1 + v.1, v.0, v.1);
                        assert(t =~= s.skip(i + 1)) by {
                            assert(forall|k: int|
                                0 <= k < t.len() ==> #[trigger] t[k] == s.skip(i)[k + 1]);
                            assert(forall|k: int|
                                0 <= k < s.len() - i ==> #[trigger] s.skip(i)[k] == s[i + k]);
                            assert(forall|k: int|
                                0 <= k < s.len() - i - 1 ==> #[trigger] s.skip(i + 1)[k] == s[i + 1
                                    + k]);
                        }
                    }
                    if cell == Cell::Empty {
                        stack.clear();
                        has_space = true;
                        proof {
                            lemma_take_no_new_run(s, Cell::Black, i);
                            lemma_take_no_new_run(s, Cell::White, i);
                            lemma_take_empty_step(s, i);
                            lemma_step_n_shift(p0, v, i + 1);
                            i = i + 1;
                        }
                    } else {
                        let extend = if stack.len() == 0 {
                            true
                        } else {
                            let top = stack[stack.len() - 1];
                            top == cell
                        };
                        if extend {
                            stack.push(cell);
                            if stack.len() == 5 {
                                proof {
                                    // the five stones just walked over, ending at s[i]
                                    assert(stone_at(g, cell, pre_p.0, pre_p.1));
                                    assert(run_at(s, cell, i - 4));
                                    lemma_take_empty_step(s, i);
                                    // this is the scan's first completed run
                                    assert(s[i] == cell && s[i - 1] == cell && s[i - 2] == cell
                                        && s[i - 3] == cell && s[i - 4] == cell);
                                    lemma_run_end_found(s, 0, i);
                                }
                                let l5 = line.last5();
                                proof {
                                    let x = line.p.0 as int - 5 * v.0;
                                    let y = line.p.1 as int - 5 * v.1;
                                    assert(win_at(g, cell, x, y, v.0, v.1));
                                    assert(valid_win_line(g, cell, l5@));
                                    lemma_step_n_shift(p0, v, i + 1);
                                    lemma_step_n_shift(p0, v, i);
                                    lemma_step_n_shift(p0, v, i - 1);
                                    lemma_step_n_shift(p0, v, i - 2);
                                    lemma_step_n_shift(p0, v, i - 3);
                                    assert((line.p.0 as int, line.p.1 as int) == step_n(
                                        p0,
                                        v,
                                        i + 1,
                                    ));
                                    assert(l5@ =~= run_coords(p0, v, i)) by {
                                        assert(l5@[0] == pos_pair(step_n(p0, v, i)));
                                        assert(l5@[1] == pos_pair(step_n(p0, v, i - 1)));
                                        assert(l5@[2] == pos_pair(step_n(p0, v, i - 2)));
                                        assert(l5@[3] == pos_pair(step_n(p0, v, i - 3)));
                                        assert(l5@[4] == pos_pair(step_n(p0, v, i - 4)));
                                    }
                                    assert(line_win(g, p0.0, p0.1, v.0, v.1) == Some(
                                        (cell, l5@),
                                    ));
                                }
                                if cell == Cell::Black {
                                    return GameResult::BlackWon(l5);
                                } else {
                                    return GameResult::WhiteWon(l5);
                                }
                            }
                            proof {
                                lemma_take_no_new_run(s, Cell::Black, i);
                                lemma_take_no_new_run(s, Cell::White, i);
                                lemma_take_empty_step(s, i);
                                lemma_step_n_shift(p0, v, i + 1);
                                i = i + 1;
                            }
                        } else {
                            stack.clear();
                            stack.push(cell);
                            proof {
                                lemma_take_no_new_run(s, Cell::Black, i);
                                lemma_take_no_new_run(s, Cell::White, i);
                                lemma_take_empty_step(s, i);
                                lemma_step_n_shift(p0, v, i + 1);
                                i = i + 1;
                            }
                        }
                    }
                },
            }
        }
    }

    /// An iterator over the line of cells starting at `pos` and stepping by
    /// `dir`.
    pub fn line(&self, pos: (i32, i32), dir: (i32, i32)) -> (r: BoardLineIterator<'_>)
        ensures
            r.p == pos,
            r.v == dir,
            r.cells@ == self.grid(),
    {
        BoardLineIterator { p: pos, v: dir, cells: &self.cells }
    }

    /// Scan the whole board: every row, every column, and every diagonal of
    /// both orientations, folding the per-line outcomes with
    /// [`GameResult::or`].  A winner is reported if and only if that color has
    /// five in a row; otherwise the game is open exactly when some cell is
    /// still empty.  The reported winner and winning line are exactly
    /// [`crate::winspec::scan_win`] of the grid: the first completed run of the
    /// first decided line in sweep order, so the answer is a function of the
    /// grid alone.
    #[verifier::loop_isolation(false)]
    pub fn result(&self) -> (r: GameResult)
        requires
            grid_wf(self.grid()),
        ensures
            result_spec_ok(self.grid(), r),
    {
        let ghost g = self.grid();
        let mut res = GameResult::Draw;
        let mut n: usize = 0;
        while n < MAP_SIZE
            invariant
                n <= 15,
                fold_ok(g, res, n as int, 1),
                res.is_won() <==> scan_win1(g, n as int) is Some,
                (res matches GameResult::BlackWon(l) ==> scan_win1(g, n as int) == Some(
                    (Cell::Black, l@),
                )),
                (res matches GameResult::WhiteWon(l) ==> scan_win1(g, n as int) == Some(
                    (Cell::White, l@),
                )),
            decreases 15 - n,
        {
            let r0 = Self::check_line(self.line((0, n as i32), (1, 0)));
            let r1 = Self::check_line(self.line((n as i32, 0), (0, 1)));
            let r2 = Self::check_line(self.line((0, n as i32), (1, 1)));
            let r3 = Self::check_line(self.line((0, n as i32), (1, -1)));
            res = res.or(r0);
            res = res.or(r1);
            res = res.or(r2);
            res = res.or(r3);
            proof {
                assert(fam_line(g, 0, n as int) == line_cells(g, 0, n as int, 1, 0));
                assert(fam_line(g, 1, n as int) == line_cells(g, n as int, 0, 0, 1));
                assert(fam_line(g, 2, n as int) == line_cells(g, 0, n as int, 1, 1));
                assert(fam_line(g, 3, n as int) == line_cells(g, 0, n as int, 1, -1));
                assert(fam_line_win(g, 0, n as int) == line_win(g, 0, n as int, 1, 0));
                assert(fam_line_win(g, 1, n as int) == line_win(g, n as int, 0, 0, 1));
                assert(fam_line_win(g, 2, n as int) == line_win(g, 0, n as int, 1, 1));
                assert(fam_line_win(g, 3, n as int) == line_win(g, 0, n as int, 1, -1));
                assert(scan_win1(g, n as int + 1) == first_win(
                    scan_win1(g, n as int),
                    first_win(
                        fam_line_win(g, 0, n as int),
                        first_win(
                            fam_line_win(g, 1, n as int),
                            first_win(fam_line_win(g, 2, n as int), fam_line_win(g, 3, n as int)),
                        ),
                    ),
                ));
                lemma_scanned_run_step1(g, Cell::Black, n as int);
                lemma_scanned_run_step1(g, Cell::White, n as int);
                lemma_scanned_empty_step1(g, n as int);
                if scanned_run(g, Cell::Black, n as int + 1, 1) {
                    lemma_scanned_run_sound(g, Cell::Black, n as int + 1, 1);
                }
                if scanned_run(g, Cell::White, n as int + 1, 1) {
                    lemma_scanned_run_sound(g, Cell::White, n as int + 1, 1);
                }
            }
            n = n + 1;
        }
        let mut n: usize = 1;
        proof {
            assert(scan_win2(g, 1) == scan_win1(g, 15));
        }
        while n < MAP_SIZE
            invariant
                1 <= n <= 15,
                fold_ok(g, res, 15, n as int),
                res.is_won() <==> scan_win2(g, n as int) is Some,
                (res matches GameResult::BlackWon(l) ==> scan_win2(g, n as int) == Some(
                    (Cell::Black, l@),
                )),
                (res matches GameResult::WhiteWon(l) ==> scan_win2(g, n as int) == Some(
                    (Cell::White, l@),
                )),
            decreases 15 - n,
        {
            let r4 = Self::check_line(self.line((n as i32, 0), (1, 1)));
            let r5 = Self::check_line(self.line((n as i32, (MAP_SIZE - 1) as i32), (1, -1)));
            res = res.or(r4);
            res = res.or(r5);
            proof {
                assert(fam_line(g, 4, n as int) == line_cells(g, n as int, 0, 1, 1));
                assert(fam_line(g, 5, n as int) == line_cells(g, n as int, 14, 1, -1));
                assert(fam_line_win(g, 4, n as int) == line_win(g, n as int, 0, 1, 1));
                assert(fam_line_win(g, 5, n as int) == line_win(g, n as int, 14, 1, -1));
                assert(scan_win2(g, n as int + 1) == first_win(
                    scan_win2(g, n as int),
                    first_win(fam_line_win(g, 4, n as int), fam_line_win(g, 5, n as int)),
                ));
                lemma_scanned_run_step2(g, Cell::Black, n as int);
                lemma_scanned_run_step2(g, Cell::White, n as int);
                lemma_scanned_empty_step2(g, n as int);
                if scanned_run(g, Cell::Black, 15, n as int + 1) {
                    lemma_scanned_run_sound(g, Cell::Black, 15, n as int + 1);
                }
                if scanned_run(g, Cell::White, 15, n as int + 1) {
                    lemma_scanned_run_sound(g, Cell::White, 15, n as int + 1);
                }
            }
            n = n + 1;
        }
        proof {
            lemma_all_lines_runs(g, Cell::Black);
            lemma_all_lines_runs(g, Cell::White);
            lemma_all_lines_empty(g);
        }
        res
    }

    /// Whether a move can be taken back.
    pub fn can_undo(&self) -> (r: bool)
        ensures
            r == (self.spec_moves().len() > 0),
    {
        !self.moves.is_empty()
    }

    /// Whether an undone move is waiting to be replayed.
    pub fn can_redo(&self) -> (r: bool)
        ensures
            r == (self.spec_redo().len() > 0),
    {
        !self.redo_stack.is_empty()
    }

    /// The move history, in play order.
    pub fn moves(&self) -> (r: &Vec<(usize, usize)>)
        ensures
            r@ == self.spec_moves(),
    {
        &self.moves
    }

    /// The color that plays the next ply: Black when an even number of moves
    /// has been played, White otherwise.
    pub fn next_color(&self) -> (r: Cell)
        ensures
            r == color_of_ply(self.spec_moves().len() as int),
    {
        let n = self.moves.len();
        if n % 2 == 0 {
            Cell::Black
        } else {
            Cell::White
        }
    }

    /// Pairs each played coordinate with its 1-based ply index, in play order.
    pub fn move_to_id_map(&self) -> (r: Vec<((usize, usize), usize)>)
        ensures
            r@.len() == self.spec_moves().len(),
            forall|i: int|
                0 <= i < r@.len() ==> #[trigger] r@[i] == (self.spec_moves()[i], (i + 1) as usize),
    {
        let mut map: Vec<((usize, usize), usize)> = Vec::new();
        let mut i: usize = 0;
        while i < self.moves.len()
            invariant
                i <= self.moves@.len(),
                map@.len() == i,
                forall|j: int| 0 <= j < i ==> #[trigger] map@[j] == (self.moves@[j], (j + 1) as usize),
            decreases self.moves@.len() - i,
        {
            map.push((self.moves[i], i + 1));
            i = i + 1;
        }
        map
    }

    /// Whether the player about to move is controlled by a person, given who
    /// controls Black and who controls White.
    pub fn human_comes(&self, black_player: PlayerInt, white_player: PlayerInt) -> (r: bool)
        ensures
            r == ((if self.spec_moves().len() % 2 == 0 {
                black_player
            } else {
                white_player
            }) == PlayerInt::Human),
    {
        if self.moves.len() % 2 == 0 {
            black_player == PlayerInt::Human
        } else {
            white_player == PlayerInt::Human
        }
    }

    /// The cell at `(x, y)`.
    pub fn cell(&self, x: usize, y: usize) -> (r: Cell)
        requires
            grid_wf(self.grid()),
            x < 15,
            y < 15,
        ensures
            r == gcell(self.grid(), x as int, y as int),
    {
        self.cells[x][y]
    }

    /// Write the next color into the empty cell `(x, y)`, record the move, and
    /// rescan the board.  The redo buffer is cleared unless this placement
    /// replays an undone move (`clear_redo == false`), in which case the move
    /// must not itself sit in the buffer.
    pub fn put_mayredo(&mut self, x: usize, y: usize, clear_redo: bool) -> (r: GameResult)
        requires
            old(self).wf(),
            x < 15,
            y < 15,
            gcell(old(self).grid(), x as int, y as int) == Cell::Empty,
            !clear_redo ==> !old(self).spec_redo().contains((x, y)),
        ensures
            final(self).wf(),
            final(self).spec_moves() == old(self).spec_moves().push((x, y)),
            clear_redo ==> final(self).spec_redo().len() == 0,
            !clear_redo ==> final(self).spec_redo() == old(self).spec_redo(),
            gcell(final(self).grid(), x as int, y as int) == color_of_ply(
                old(self).spec_moves().len() as int,
            ),
            forall|a: int, b: int|
                in_range(a, b) && !(a == x as int && b == y as int) ==> #[trigger] gcell(
                    final(self).grid(),
                    a,
                    b,
                ) == gcell(old(self).grid(), a, b),
            result_spec_ok(final(self).grid(), r),
    {
        let ghost ms = self.moves@;
        let ghost rs = self.redo_stack@;
        let ghost g0 = self.cells@;
        let color = self.next_color();
        self.cells[x][y] = color;
        self.moves.push((x, y));
        if clear_redo {
            self.redo_stack = Vec::new();
        }
        proof {
            assert forall|a: int, b: int|
                in_range(a, b) && !(a == x as int && b == y as int) implies #[trigger] gcell(
                self.cells@,
                a,
                b,
            ) == gcell(g0, a, b) by {
            }
            lemma_cell_of_moves_contains(ms, x as int, y as int);
            assert(!ms.contains((x, y)));
            assert(forall|i: int| 0 <= i < ms.len() ==> #[trigger] ms[i] != (x, y));
            assert(self.moves@ == ms.push((x, y)));
            assert(grid_wf(self.cells@));
            assert forall|a: int, b: int| in_range(a, b) implies #[trigger] gcell(self.cells@, a, b)
                == cell_of_moves(self.moves@, a, b) by {
                lemma_cell_of_moves_push(ms, (x, y), a, b);
                if !(a == x as int && b == y as int) {
                    assert(gcell(self.cells@, a, b) == gcell(g0, a, b));
                }
            }
            if !clear_redo {
                assert(forall|j: int| 0 <= j < rs.len() ==> #[trigger] rs[j] != (x, y));
            }
            assert(self.wf());
        }
        self.result()
    }

    /// Place a fresh move: writes the next color into the empty cell `(x, y)`,
    /// appends the move to the history, discards the redo buffer, and returns
    /// the rescanned game result.
    pub fn put(&mut self, x: usize, y: usize) -> (r: GameResult)
        requires
            old(self).wf(),
            x < 15,
            y < 15,
            gcell(old(self).grid(), x as int, y as int) == Cell::Empty,
        ensures
            final(self).wf(),
            final(self).spec_moves() == old(self).spec_moves().push((x, y)),
            final(self).spec_redo().len() == 0,
            gcell(final(self).grid(), x as int, y as int) == color_of_ply(
                old(self).spec_moves().len() as int,
            ),
            forall|a: int, b: int|
                in_range(a, b) && !(a == x as int && b == y as int) ==> #[trigger] gcell(
                    final(self).grid(),
                    a,
                    b,
                ) == gcell(old(self).grid(), a, b),
            result_spec_ok(final(self).grid(), r),
    {
        self.put_mayredo(x, y, true)
    }

    /// `put` with its precondition checked at run time: an off-board or
    /// occupied cell is refused with `InvalidMove` and the board is left
    /// unchanged.
    pub fn try_put(&mut self, x: usize, y: usize) -> (r: Result<GameResult, MoveError>)
        requires
            old(self).wf(),
        ensures
            final(self).wf(),
            (r is Ok <==> (x < 15 && y < 15 && gcell(old(self).grid(), x as int, y as int)
                == Cell::Empty)),
            r is Err ==> r == Err::<GameResult, MoveError>(MoveError::InvalidMove) && *final(self)
                == *old(self),
            r matches Ok(g) ==> final(self).spec_moves() == old(self).spec_moves().push((x, y))
                && final(self).spec_redo().len() == 0 && result_spec_ok(final(self).grid(), g),
    {
        if x < MAP_SIZE && y < MAP_SIZE {
            if self.cell(x, y) == Cell::Empty {
                Ok(self.put(x, y))
            } else {
                Err(MoveError::InvalidMove)
            }
        } else {
            Err(MoveError::InvalidMove)
        }
    }

    /// Take back the last move, if any: the cell becomes empty again and the
    /// move goes onto the redo buffer.  On an empty history this is a no-op.
    pub fn undo(&mut self)
        requires
            old(self).wf(),
        ensures
            final(self).wf(),
            old(self).spec_moves().len() == 0 ==> final(self).spec_moves() == old(
                self,
            ).spec_moves() && final(self).spec_redo() == old(self).spec_redo() && final(self).grid()
                == old(self).grid(),
            old(self).spec_moves().len() > 0 ==> final(self).spec_moves() == old(
                self,
            ).spec_moves().drop_last() && final(self).spec_redo() == old(self).spec_redo().push(
                old(self).spec_moves().last(),
            ),
            old(self).spec_moves().len() > 0 ==> gcell(
                final(self).grid(),
                old(self).spec_moves().last().0 as int,
                old(self).spec_moves().last().1 as int,
            ) == Cell::Empty,
            old(self).spec_moves().len() > 0 ==> forall|a: int, b: int|
                in_range(a, b) && !(a == old(self).spec_moves().last().0 as int && b == old(
                    self,
                ).spec_moves().last().1 as int) ==> #[trigger] gcell(final(self).grid(), a, b)
                    == gcell(old(self).grid(), a, b),
    {
        let ghost ms = self.moves@;
        let ghost rs = self.redo_stack@;
        let ghost g0 = self.cells@;
        if let Some(p) = self.moves.pop() {
            proof {
                assert(ms[ms.len() - 1] == p);
                assert(in_range(p.0 as int, p.1 as int));
            }
            self.cells[p.0][p.1] = Cell::Empty;
            self.redo_stack.push(p);
            proof {
                assert forall|a: int, b: int|
                    in_range(a, b) && !(a == p.0 as int && b == p.1 as int) implies #[trigger] gcell(
                    self.cells@,
                    a,
                    b,
                ) == gcell(g0, a, b) by {
                }
                let ms2 = ms.drop_last();
                assert(ms =~= ms2.push(p));
                assert(forall|i: int| 0 <= i < ms2.len() ==> #[trigger] ms2[i] == ms[i]);
                // the popped move occurs nowhere else, in either history
                assert(forall|i: int| 0 <= i < ms2.len() ==> #[trigger] ms2[i] != p);
                assert(forall|j: int| 0 <= j < rs.len() ==> #[trigger] rs[j] != p);
                assert forall|a: int, b: int| in_range(a, b) implies #[trigger] gcell(
                    self.cells@,
                    a,
                    b,
                ) == cell_of_moves(ms2, a, b) by {
                    lemma_cell_of_moves_push(ms2, p, a, b);
                    if a == p.0 as int && b == p.1 as int {
                        lemma_cell_of_moves_contains(ms2, a, b);
                        if ms2.contains((a as usize, b as usize)) {
                            let i = choose|i: int|
                                0 <= i < ms2.len() && ms2[i] == (a as usize, b as usize);
                            assert(ms2[i] == p);
                            assert(false);
                        }
                    } else {
                        assert(gcell(self.cells@, a, b) == gcell(g0, a, b));
                        assert(cell_of_moves(ms, a, b) == cell_of_moves(ms2, a, b));
                    }
                }
                assert(self.wf());
            }
        }
    }

    /// Peek at the move that `redo` would replay next, without changing
    /// anything.
    pub fn redo_step(&mut self) -> (r: Option<(usize, usize)>)
        ensures
            final(self).spec_moves() == old(self).spec_moves(),
            final(self).spec_redo() == old(self).spec_redo(),
            final(self).grid() == old(self).grid(),
            old(self).spec_redo().len() == 0 ==> r == None::<(usize, usize)>,
            old(self).spec_redo().len() > 0 ==> r == Some(old(self).spec_redo().last()),
    {
        if self.redo_stack.is_empty() {
            None
        } else {
            Some(self.redo_stack[self.redo_stack.len() - 1])
        }
    }

    /// Replay the most recently undone move through the same write path as
    /// `put`, keeping the rest of the redo buffer for further redos.  May only
    /// be called when `can_redo` holds.
    pub fn redo(&mut self) -> (r: GameResult)
        requires
            old(self).wf(),
            old(self).spec_redo().len() > 0,
        ensures
            final(self).wf(),
            final(self).spec_moves() == old(self).spec_moves().push(old(self).spec_redo().last()),
            final(self).spec_redo() == old(self).spec_redo().drop_last(),
            gcell(
                final(self).grid(),
                old(self).spec_redo().last().0 as int,
                old(self).spec_redo().last().1 as int,
            ) == color_of_ply(old(self).spec_moves().len() as int),
            forall|a: int, b: int|
                in_range(a, b) && !(a == old(self).spec_redo().last().0 as int && b == old(
                    self,
                ).spec_redo().last().1 as int) ==> #[trigger] gcell(final(self).grid(), a, b)
                    == gcell(old(self).grid(), a, b),
            result_spec_ok(final(self).grid(), r),
    {
        let ghost ms = self.moves@;
        let ghost rs = self.redo_stack@;
        let p = self.redo_stack.pop().unwrap();
        proof {
            let rs2 = rs.drop_last();
            assert(rs[rs.len() - 1] == p);
            assert(in_range(p.0 as int, p.1 as int));
            assert(forall|i: int| 0 <= i < rs2.len() ==> #[trigger] rs2[i] == rs[i]);
            // the replayed cell is unoccupied and not in the remaining buffer
            assert(forall|i: int| 0 <= i < ms.len() ==> #[trigger] ms[i] != p);
            lemma_cell_of_moves_contains(ms, p.0 as int, p.1 as int);
            if ms.contains((p.0, p.1)) {
                let i = choose|i: int| 0 <= i < ms.len() && ms[i] == (p.0, p.1);
                assert(false);
            }
            if rs2.contains(p) {
                let i = choose|i: int| 0 <= i < rs2.len() && rs2[i] == p;
                assert(rs[i] == p && rs[rs.len() - 1] == p);
                assert(false);
            }
            assert(self.wf());
        }
        self.put_mayredo(p.0, p.1, false)
    }

    /// `redo` with its precondition checked at run time: an empty redo buffer
    /// is refused with `NoRedoAvailable` and the board is left unchanged.
    pub fn try_redo(&mut self) -> (r: Result<GameResult, MoveError>)
        requires
            old(self).wf(),
        ensures
            final(self).wf(),
            (r is Ok <==> old(self).spec_redo().len() > 0),
            r is Err ==> r == Err::<GameResult, MoveError>(MoveError::NoRedoAvailable)
                && *final(self) == *old(self),
            r matches Ok(g) ==> final(self).spec_moves() == old(self).spec_moves().push(
                old(self).spec_redo().last(),
            ) && final(self).spec_redo() == old(self).spec_redo().drop_last() && result_spec_ok(
                final(self).grid(),
                g,
            ),
    {
        if self.can_redo() {
            Ok(self.redo())
        } else {
            Err(MoveError::NoRedoAvailable)
        }
    }
}

} // verus!
