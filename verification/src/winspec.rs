//! Geometry of win detection: straight lines over the grid, runs of equal
//! stones inside a line, and the correspondence between per-line scans and
//! whole-board win conditions.

use vstd::prelude::*;
use crate::board::Cell;
use crate::board::GameResult;

verus! {

/// Both coordinates of a position lie in `[0, 15)`.
pub open spec fn in_range(x: int, y: int) -> bool {
    0 <= x < 15 && 0 <= y < 15
}

/// The four scan directions, as `(dx, dy)` unit steps: right, down,
/// down-right, down-left.
pub open spec fn is_dir(dx: int, dy: int) -> bool {
    ||| (dx == 1 && dy == 0)
    ||| (dx == 0 && dy == 1)
    ||| (dx == 1 && dy == 1)
    ||| (dx == 1 && dy == -1)
}

/// The cell of grid `g` at `(x, y)`.
pub open spec fn gcell(g: Seq<Vec<Cell>>, x: int, y: int) -> Cell {
    g[x]@[y]
}

/// A grid is a full 15 x 15 matrix of cells.
pub open spec fn grid_wf(g: Seq<Vec<Cell>>) -> bool {
    g.len() == 15 && forall|x: int| 0 <= x < 15 ==> (#[trigger] g[x])@.len() == 15
}

/// `(x, y)` is on the board and holds a stone of color `c`.
pub open spec fn stone_at(g: Seq<Vec<Cell>>, c: Cell, x: int, y: int) -> bool {
    in_range(x, y) && gcell(g, x, y) == c
}

/// Five consecutive stones of color `c` starting at `(x, y)` and stepping by
/// `(dx, dy)`.
pub open spec fn win_at(g: Seq<Vec<Cell>>, c: Cell, x: int, y: int, dx: int, dy: int) -> bool {
    &&& c != Cell::Empty
    &&& is_dir(dx, dy)
    &&& stone_at(g, c, x, y)
    &&& stone_at(g, c, x + dx, y + dy)
    &&& stone_at(g, c, x + 2 * dx, y + 2 * dy)
    &&& stone_at(g, c, x + 3 * dx, y + 3 * dy)
    &&& stone_at(g, c, x + 4 * dx, y + 4 * dy)
}

/// Color `c` has five in a row somewhere on the grid.
pub open spec fn has_five(g: Seq<Vec<Cell>>, c: Cell) -> bool {
    exists|x: int, y: int, dx: int, dy: int| win_at(g, c, x, y, dx, dy)
}

/// Every position of the grid holds a stone.
pub open spec fn board_full(g: Seq<Vec<Cell>>) -> bool {
    forall|x: int, y: int| in_range(x, y) ==> #[trigger] gcell(g, x, y) != Cell::Empty
}

/// The list of winning coordinates reported for a win: the five cells of some
/// run of `c`, listed from the far end of the run back to its start.
pub open spec fn valid_win_line(g: Seq<Vec<Cell>>, c: Cell, l: Seq<(usize, usize)>) -> bool {
    &&& l.len() == 5
    &&& exists|x: int, y: int, dx: int, dy: int|
        {
            &&& win_at(g, c, x, y, dx, dy)
            &&& l[4] == (x as usize, y as usize)
            &&& l[3] == ((x + dx) as usize, (y + dy) as usize)
            &&& l[2] == ((x + 2 * dx) as usize, (y + 2 * dy) as usize)
            &&& l[1] == ((x + 3 * dx) as usize, (y + 3 * dy) as usize)
            &&& l[0] == ((x + 4 * dx) as usize, (y + 4 * dy) as usize)
        }
}

/// The cells along the line that starts at `(px, py)` and repeatedly steps by
/// `(vx, vy)` until it leaves the grid.
pub open spec fn line_cells(g: Seq<Vec<Cell>>, px: int, py: int, vx: int, vy: int) -> Seq<Cell>
    decreases (if vx == 1 { 15 - px } else { 15 - py })
        when is_dir(vx, vy)
{
    if !in_range(px, py) {
        Seq::empty()
    } else {
        seq![gcell(g, px, py)] + line_cells(g, px + vx, py + vy, vx, vy)
    }
}

/// A run of five cells of color `c` at offset `i` of sequence `s`.
pub open spec fn run_at(s: Seq<Cell>, c: Cell, i: int) -> bool {
    &&& 0 <= i
    &&& i + 5 <= s.len()
    &&& s[i] == c
    &&& s[i + 1] == c
    &&& s[i + 2] == c
    &&& s[i + 3] == c
    &&& s[i + 4] == c
}

/// Sequence `s` contains five consecutive cells of color `c`.
pub open spec fn seq_has_run(s: Seq<Cell>, c: Cell) -> bool {
    exists|i: int| run_at(s, c, i)
}

/// Sequence `s` contains an empty cell.
pub open spec fn seq_has_empty(s: Seq<Cell>) -> bool {
    exists|i: int| 0 <= i < s.len() && s[i] == Cell::Empty
}

/// Position reached from `p` after `k` steps of `v`.
pub open spec fn step_n(p: (int, int), v: (int, int), k: int) -> (int, int)
    decreases k,
    when k >= 0
{
    if k <= 0 {
        p
    } else {
        step_n((p.0 + v.0, p.1 + v.1), v, k - 1)
    }
}

/// Taking the steps inside-first or outside-last reaches the same position.
pub proof fn lemma_step_n_shift(p: (int, int), v: (int, int), k: int)
    requires
        k >= 1,
    ensures
        step_n(p, v, k) == (step_n(p, v, k - 1).0 + v.0, step_n(p, v, k - 1).1 + v.1),
    decreases k,
{
    if k == 1 {
        assert(step_n(p, v, 1) == step_n((p.0 + v.0, p.1 + v.1), v, 0));
        assert(step_n((p.0 + v.0, p.1 + v.1), v, 0) == (p.0 + v.0, p.1 + v.1));
        assert(step_n(p, v, 0) == p);
    } else {
        lemma_step_n_shift((p.0 + v.0, p.1 + v.1), v, k - 1);
        assert(step_n(p, v, k) == step_n((p.0 + v.0, p.1 + v.1), v, k - 1));
        assert(step_n(p, v, k - 1) == step_n((p.0 + v.0, p.1 + v.1), v, k - 2));
    }
}

/// End index of the first completed run while scanning `s` from index `j`:
/// the least position at or after `j` whose last five cells (ending there)
/// show one non-empty color.
pub open spec fn run_end_from(s: Seq<Cell>, j: int) -> Option<int>
    decreases s.len() - j,
    when 0 <= j <= s.len()
{
    if j >= s.len() {
        None
    } else if j >= 4 && s[j] != Cell::Empty && s[j - 1] == s[j] && s[j - 2] == s[j] && s[j - 3]
        == s[j] && s[j - 4] == s[j] {
        Some(j)
    } else {
        run_end_from(s, j + 1)
    }
}

/// A board coordinate pair from a position.
pub open spec fn pos_pair(q: (int, int)) -> (usize, usize) {
    (q.0 as usize, q.1 as usize)
}

/// The five coordinates of the run ending at step `j` of the line from `p`
/// along `v`, the run's far end first.
pub open spec fn run_coords(p: (int, int), v: (int, int), j: int) -> Seq<(usize, usize)> {
    seq![
        pos_pair(step_n(p, v, j)),
        pos_pair(step_n(p, v, j - 1)),
        pos_pair(step_n(p, v, j - 2)),
        pos_pair(step_n(p, v, j - 3)),
        pos_pair(step_n(p, v, j - 4)),
    ]
}

/// The first run of the line from `(px, py)` along `(vx, vy)`: the winning
/// color and the run's five coordinates, or `None` for an undecided line.
pub open spec fn line_win(g: Seq<Vec<Cell>>, px: int, py: int, vx: int, vy: int) -> Option<
    (Cell, Seq<(usize, usize)>),
> {
    let s = line_cells(g, px, py, vx, vy);
    match run_end_from(s, 0) {
        Some(j) => Some((s[j], run_coords((px, py), (vx, vy), j))),
        None => None,
    }
}

/// A sequence without runs scans to no completed run.
pub proof fn lemma_run_end_none(s: Seq<Cell>, j: int)
    requires
        0 <= j <= s.len(),
        !seq_has_run(s, Cell::Black),
        !seq_has_run(s, Cell::White),
    ensures
        run_end_from(s, j) is None,
    decreases s.len() - j,
{
    if j < s.len() {
        if j >= 4 && s[j] != Cell::Empty && s[j - 1] == s[j] && s[j - 2] == s[j] && s[j - 3] == s[j]
            && s[j - 4] == s[j] {
            assert(run_at(s, s[j], j - 4));
            assert(false);
        }
        lemma_run_end_none(s, j + 1);
    }
}

/// The scan finds exactly the first completed run: none ends before `i`, and
/// five equal cells end at `i`.
pub proof fn lemma_run_end_found(s: Seq<Cell>, j: int, i: int)
    requires
        0 <= j <= i < s.len(),
        i >= 4,
        !seq_has_run(s.take(i), Cell::Black),
        !seq_has_run(s.take(i), Cell::White),
        s[i] != Cell::Empty,
        s[i - 1] == s[i] && s[i - 2] == s[i] && s[i - 3] == s[i] && s[i - 4] == s[i],
    ensures
        run_end_from(s, j) == Some(i),
    decreases i - j,
{
    if j < i {
        if j >= 4 && s[j] != Cell::Empty && s[j - 1] == s[j] && s[j - 2] == s[j] && s[j - 3] == s[j]
            && s[j - 4] == s[j] {
            assert(run_at(s.take(i), s[j], j - 4)) by {
                assert(s.take(i)[j - 4] == s[j - 4]);
                assert(s.take(i)[j - 3] == s[j - 3]);
                assert(s.take(i)[j - 2] == s[j - 2]);
                assert(s.take(i)[j - 1] == s[j - 1]);
                assert(s.take(i)[j] == s[j]);
            }
            assert(false);
        }
        lemma_run_end_found(s, j + 1, i);
    }
}

/// The earlier of two scan outcomes: a line decided earlier in the sweep
/// takes precedence.
pub open spec fn first_win(
    a: Option<(Cell, Seq<(usize, usize)>)>,
    b: Option<(Cell, Seq<(usize, usize)>)>,
) -> Option<(Cell, Seq<(usize, usize)>)> {
    if a is Some {
        a
    } else {
        b
    }
}

/// The win reported by line `n` of scan family `f`.
pub open spec fn fam_line_win(g: Seq<Vec<Cell>>, f: int, n: int) -> Option<
    (Cell, Seq<(usize, usize)>),
> {
    line_win(g, fam_start(f, n).0, fam_start(f, n).1, fam_dir(f).0, fam_dir(f).1)
}

/// The first decided line among families 0 to 3 with index below `n`, in
/// sweep order.
pub open spec fn scan_win1(g: Seq<Vec<Cell>>, n: int) -> Option<(Cell, Seq<(usize, usize)>)>
    decreases n,
    when n >= 0
{
    if n <= 0 {
        None
    } else {
        first_win(
            scan_win1(g, n - 1),
            first_win(
                fam_line_win(g, 0, n - 1),
                first_win(
                    fam_line_win(g, 1, n - 1),
                    first_win(fam_line_win(g, 2, n - 1), fam_line_win(g, 3, n - 1)),
                ),
            ),
        )
    }
}

/// The first decided line after the whole first sweep and the second sweep up
/// to index `n`.
pub open spec fn scan_win2(g: Seq<Vec<Cell>>, n: int) -> Option<(Cell, Seq<(usize, usize)>)>
    decreases n,
    when n >= 1
{
    if n <= 1 {
        scan_win1(g, 15)
    } else {
        first_win(
            scan_win2(g, n - 1),
            first_win(fam_line_win(g, 4, n - 1), fam_line_win(g, 5, n - 1)),
        )
    }
}

/// The first decided line of the whole board scan, with its winning run:
/// which line decides, and with which five coordinates, is a function of the
/// grid alone.
pub open spec fn scan_win(g: Seq<Vec<Cell>>) -> Option<(Cell, Seq<(usize, usize)>)> {
    scan_win2(g, 15)
}

/// `(x, y)` lies on the line through `(px, py)` with direction `(vx, vy)`, at
/// or after the start.
pub open spec fn same_line(px: int, py: int, vx: int, vy: int, x: int, y: int) -> bool {
    if vx == 1 && vy == 0 {
        py == y && px <= x
    } else if vx == 0 && vy == 1 {
        px == x && py <= y
    } else if vx == 1 && vy == 1 {
        px <= x && x - px == y - py
    } else {
        px <= x && x - px == py - y
    }
}

/// The first cell of a nonempty line is the cell at its start, and the rest of
/// the line is the line from the next position.
proof fn lemma_line_unfold(g: Seq<Vec<Cell>>, px: int, py: int, vx: int, vy: int)
    requires
        is_dir(vx, vy),
        in_range(px, py),
    ensures
        line_cells(g, px, py, vx, vy).len() == 1 + line_cells(g, px + vx, py + vy, vx, vy).len(),
        line_cells(g, px, py, vx, vy)[0] == gcell(g, px, py),
        forall|k: int|
            0 <= k < line_cells(g, px + vx, py + vy, vx, vy).len()
                ==> line_cells(g, px, py, vx, vy)[k + 1] == #[trigger] line_cells(
                g,
                px + vx,
                py + vy,
                vx,
                vy,
            )[k],
{
    let s = line_cells(g, px, py, vx, vy);
    let t = line_cells(g, px + vx, py + vy, vx, vy);
    assert(s == seq![gcell(g, px, py)] + t);
}

/// If the first `n` cells of a line all show `c`, the first `n` stepped
/// positions hold stones of color `c`.
proof fn lemma_prefix_stones(g: Seq<Vec<Cell>>, c: Cell, px: int, py: int, vx: int, vy: int, n: int)
    requires
        is_dir(vx, vy),
        0 <= n <= 5,
        line_cells(g, px, py, vx, vy).len() >= n,
        forall|k: int| 0 <= k < n ==> #[trigger] line_cells(g, px, py, vx, vy)[k] == c,
    ensures
        n >= 1 ==> stone_at(g, c, px, py),
        n >= 2 ==> stone_at(g, c, px + vx, py + vy),
        n >= 3 ==> stone_at(g, c, px + 2 * vx, py + 2 * vy),
        n >= 4 ==> stone_at(g, c, px + 3 * vx, py + 3 * vy),
        n >= 5 ==> stone_at(g, c, px + 4 * vx, py + 4 * vy),
    decreases n,
{
    if n >= 1 {
        let s = line_cells(g, px, py, vx, vy);
        assert(s.len() > 0);
        assert(in_range(px, py));
        lemma_line_unfold(g, px, py, vx, vy);
        assert(gcell(g, px, py) == s[0]);
        let t = line_cells(g, px + vx, py + vy, vx, vy);
        assert(forall|k: int| 0 <= k < n - 1 ==> #[trigger] t[k] == s[k + 1]);
        lemma_prefix_stones(g, c, px + vx, py + vy, vx, vy, n - 1);
    }
}

/// Converse of `lemma_prefix_stones`: stones of color `c` at the first `n`
/// stepped positions make the first `n` cells of the line show `c`.
proof fn lemma_stones_prefix(g: Seq<Vec<Cell>>, c: Cell, px: int, py: int, vx: int, vy: int, n: int)
    requires
        is_dir(vx, vy),
        0 <= n <= 5,
        n >= 1 ==> stone_at(g, c, px, py),
        n >= 2 ==> stone_at(g, c, px + vx, py + vy),
        n >= 3 ==> stone_at(g, c, px + 2 * vx, py + 2 * vy),
        n >= 4 ==> stone_at(g, c, px + 3 * vx, py + 3 * vy),
        n >= 5 ==> stone_at(g, c, px + 4 * vx, py + 4 * vy),
    ensures
        line_cells(g, px, py, vx, vy).len() >= n,
        forall|k: int| 0 <= k < n ==> #[trigger] line_cells(g, px, py, vx, vy)[k] == c,
    decreases n,
{
    if n >= 1 {
        assert(in_range(px, py));
        lemma_line_unfold(g, px, py, vx, vy);
        lemma_stones_prefix(g, c, px + vx, py + vy, vx, vy, n - 1);
        let s = line_cells(g, px, py, vx, vy);
        let t = line_cells(g, px + vx, py + vy, vx, vy);
        assert(forall|k: int| 0 <= k < n ==> #[trigger] s[k] == c) by {
            assert forall|k: int| 0 <= k < n implies #[trigger] s[k] == c by {
                if k == 0 {
                    assert(s[0] == gcell(g, px, py));
                } else {
                    assert(s[k] == t[k - 1]);
                }
            }
        }
    }
}

/// A run of five equal stones inside any line is five in a row on the board.
pub proof fn lemma_run_to_window(
    g: Seq<Vec<Cell>>,
    c: Cell,
    px: int,
    py: int,
    vx: int,
    vy: int,
    i: int,
)
    requires
        is_dir(vx, vy),
        c != Cell::Empty,
        run_at(line_cells(g, px, py, vx, vy), c, i),
    ensures
        has_five(g, c),
    decreases i,
{
    let s = line_cells(g, px, py, vx, vy);
    assert(s.len() > 0);
    assert(in_range(px, py));
    lemma_line_unfold(g, px, py, vx, vy);
    let t = line_cells(g, px + vx, py + vy, vx, vy);
    if i == 0 {
        assert(forall|k: int| 0 <= k < 5 ==> #[trigger] s[k] == c);
        lemma_prefix_stones(g, c, px, py, vx, vy, 5);
        assert(win_at(g, c, px, py, vx, vy));
    } else {
        assert(run_at(t, c, i - 1)) by {
            assert(t[i - 1] == s[i]);
            assert(t[i] == s[i + 1]);
            assert(t[i + 1] == s[i + 2]);
            assert(t[i + 2] == s[i + 3]);
            assert(t[i + 3] == s[i + 4]);
        }
        lemma_run_to_window(g, c, px + vx, py + vy, vx, vy, i - 1);
    }
}

/// Five in a row on the board shows up as a run in the line through it,
/// provided the line starts on the board at or before the window.
pub proof fn lemma_window_to_run(
    g: Seq<Vec<Cell>>,
    c: Cell,
    px: int,
    py: int,
    vx: int,
    vy: int,
    x: int,
    y: int,
)
    requires
        in_range(px, py),
        win_at(g, c, x, y, vx, vy),
        same_line(px, py, vx, vy, x, y),
    ensures
        seq_has_run(line_cells(g, px, py, vx, vy), c),
    decreases x - px + (if vy == -1 { py - y } else { y - py }),
{
    if px == x && py == y {
        lemma_stones_prefix(g, c, px, py, vx, vy, 5);
        assert(run_at(line_cells(g, px, py, vx, vy), c, 0));
    } else {
        assert(in_range(px + vx, py + vy));
        assert(same_line(px + vx, py + vy, vx, vy, x, y));
        lemma_window_to_run(g, c, px + vx, py + vy, vx, vy, x, y);
        lemma_line_unfold(g, px, py, vx, vy);
        let t = line_cells(g, px + vx, py + vy, vx, vy);
        let i = choose|i: int| run_at(t, c, i);
        assert(run_at(line_cells(g, px, py, vx, vy), c, i + 1));
    }
}

/// An empty cell inside any line is an empty cell of the board.
pub proof fn lemma_line_empty_to_board(
    g: Seq<Vec<Cell>>,
    px: int,
    py: int,
    vx: int,
    vy: int,
    i: int,
)
    requires
        is_dir(vx, vy),
        0 <= i < line_cells(g, px, py, vx, vy).len(),
        line_cells(g, px, py, vx, vy)[i] == Cell::Empty,
    ensures
        !board_full(g),
    decreases i,
{
    assert(in_range(px, py));
    lemma_line_unfold(g, px, py, vx, vy);
    if i == 0 {
        assert(gcell(g, px, py) == Cell::Empty);
    } else {
        let t = line_cells(g, px + vx, py + vy, vx, vy);
        assert(t[i - 1] == Cell::Empty);
        lemma_line_empty_to_board(g, px + vx, py + vy, vx, vy, i - 1);
    }
}

/// Any board cell on a line appears among the line's cells, provided the line
/// starts on the board at or before that cell.
pub proof fn lemma_cell_on_line(
    g: Seq<Vec<Cell>>,
    px: int,
    py: int,
    vx: int,
    vy: int,
    x: int,
    y: int,
)
    requires
        is_dir(vx, vy),
        in_range(px, py),
        in_range(x, y),
        same_line(px, py, vx, vy, x, y),
    ensures
        exists|i: int|
            0 <= i < line_cells(g, px, py, vx, vy).len() && #[trigger] line_cells(
                g,
                px,
                py,
                vx,
                vy,
            )[i] == gcell(g, x, y),
    decreases x - px + (if vy == -1 { py - y } else { y - py }),
{
    lemma_line_unfold(g, px, py, vx, vy);
    if px == x && py == y {
        assert(line_cells(g, px, py, vx, vy)[0] == gcell(g, x, y));
    } else {
        assert(in_range(px + vx, py + vy));
        assert(same_line(px + vx, py + vy, vx, vy, x, y));
        lemma_cell_on_line(g, px + vx, py + vy, vx, vy, x, y);
        let t = line_cells(g, px + vx, py + vy, vx, vy);
        let i = choose|i: int| 0 <= i < t.len() && #[trigger] t[i] == gcell(g, x, y);
        assert(line_cells(g, px, py, vx, vy)[i + 1] == gcell(g, x, y));
    }
}

/// Start position of line `n` of scan family `f`.
pub open spec fn fam_start(f: int, n: int) -> (int, int) {
    if f == 0 {
        (0, n)
    } else if f == 1 {
        (n, 0)
    } else if f == 2 {
        (0, n)
    } else if f == 3 {
        (0, n)
    } else if f == 4 {
        (n, 0)
    } else {
        (n, 14)
    }
}

/// Direction of scan family `f`: rows, columns, two down-right diagonal
/// families, two down-left diagonal families.
pub open spec fn fam_dir(f: int) -> (int, int) {
    if f == 0 {
        (1, 0)
    } else if f == 1 {
        (0, 1)
    } else if f == 2 {
        (1, 1)
    } else if f == 3 {
        (1, -1)
    } else if f == 4 {
        (1, 1)
    } else {
        (1, -1)
    }
}

/// The cells of line `n` of family `f`.
pub open spec fn fam_line(g: Seq<Vec<Cell>>, f: int, n: int) -> Seq<Cell> {
    line_cells(g, fam_start(f, n).0, fam_start(f, n).1, fam_dir(f).0, fam_dir(f).1)
}

/// Line `(f, n)` has been scanned once the first sweep reached bound `n1` and
/// the second sweep reached bound `n2`.
pub open spec fn scanned(f: int, n: int, n1: int, n2: int) -> bool {
    (0 <= f < 4 && 0 <= n < n1) || (4 <= f < 6 && 1 <= n < n2)
}

/// Some already-scanned line contains a run of five `c` cells.
pub open spec fn scanned_run(g: Seq<Vec<Cell>>, c: Cell, n1: int, n2: int) -> bool {
    exists|f: int, n: int| scanned(f, n, n1, n2) && seq_has_run(#[trigger] fam_line(g, f, n), c)
}

/// Some already-scanned line contains an empty cell.
pub open spec fn scanned_empty(g: Seq<Vec<Cell>>, n1: int, n2: int) -> bool {
    exists|f: int, n: int| scanned(f, n, n1, n2) && seq_has_empty(#[trigger] fam_line(g, f, n))
}

/// One step of the first sweep scans line `n` of each of families 0 to 3.
pub proof fn lemma_scanned_run_step1(g: Seq<Vec<Cell>>, c: Cell, n: int)
    requires
        0 <= n < 15,
    ensures
        scanned_run(g, c, n + 1, 1) <==> (scanned_run(g, c, n, 1) || seq_has_run(
            fam_line(g, 0, n),
            c,
        ) || seq_has_run(fam_line(g, 1, n), c) || seq_has_run(fam_line(g, 2, n), c)
            || seq_has_run(fam_line(g, 3, n), c)),
{
    if scanned_run(g, c, n + 1, 1) {
        let (f, m) = choose|f: int, m: int|
            scanned(f, m, n + 1, 1) && seq_has_run(#[trigger] fam_line(g, f, m), c);
        if m < n {
            assert(scanned(f, m, n, 1) && seq_has_run(fam_line(g, f, m), c));
        } else {
            assert(m == n);
            if f == 0 {
            } else if f == 1 {
            } else if f == 2 {
            } else {
                assert(f == 3);
            }
        }
    }
    if scanned_run(g, c, n, 1) {
        let (f, m) = choose|f: int, m: int|
            scanned(f, m, n, 1) && seq_has_run(#[trigger] fam_line(g, f, m), c);
        assert(scanned(f, m, n + 1, 1) && seq_has_run(fam_line(g, f, m), c));
    }
    if seq_has_run(fam_line(g, 0, n), c) {
        assert(scanned(0, n, n + 1, 1) && seq_has_run(fam_line(g, 0, n), c));
    }
    if seq_has_run(fam_line(g, 1, n), c) {
        assert(scanned(1, n, n + 1, 1) && seq_has_run(fam_line(g, 1, n), c));
    }
    if seq_has_run(fam_line(g, 2, n), c) {
        assert(scanned(2, n, n + 1, 1) && seq_has_run(fam_line(g, 2, n), c));
    }
    if seq_has_run(fam_line(g, 3, n), c) {
        assert(scanned(3, n, n + 1, 1) && seq_has_run(fam_line(g, 3, n), c));
    }
}

/// One step of the second sweep scans line `n` of families 4 and 5.
pub proof fn lemma_scanned_run_step2(g: Seq<Vec<Cell>>, c: Cell, n: int)
    requires
        1 <= n < 15,
    ensures
        scanned_run(g, c, 15, n + 1) <==> (scanned_run(g, c, 15, n) || seq_has_run(
            fam_line(g, 4, n),
            c,
        ) || seq_has_run(fam_line(g, 5, n), c)),
{
    if scanned_run(g, c, 15, n + 1) {
        let (f, m) = choose|f: int, m: int|
            scanned(f, m, 15, n + 1) && seq_has_run(#[trigger] fam_line(g, f, m), c);
        if f < 4 || m < n {
            assert(scanned(f, m, 15, n) && seq_has_run(fam_line(g, f, m), c));
        } else {
            assert(m == n);
            if f == 4 {
            } else {
                assert(f == 5);
            }
        }
    }
    if scanned_run(g, c, 15, n) {
        let (f, m) = choose|f: int, m: int|
            scanned(f, m, 15, n) && seq_has_run(#[trigger] fam_line(g, f, m), c);
        assert(scanned(f, m, 15, n + 1) && seq_has_run(fam_line(g, f, m), c));
    }
    if seq_has_run(fam_line(g, 4, n), c) {
        assert(scanned(4, n, 15, n + 1) && seq_has_run(fam_line(g, 4, n), c));
    }
    if seq_has_run(fam_line(g, 5, n), c) {
        assert(scanned(5, n, 15, n + 1) && seq_has_run(fam_line(g, 5, n), c));
    }
}

/// Like `lemma_scanned_run_step1`, for empty cells.
pub proof fn lemma_scanned_empty_step1(g: Seq<Vec<Cell>>, n: int)
    requires
        0 <= n < 15,
    ensures
        scanned_empty(g, n + 1, 1) <==> (scanned_empty(g, n, 1) || seq_has_empty(fam_line(g, 0, n))
            || seq_has_empty(fam_line(g, 1, n)) || seq_has_empty(fam_line(g, 2, n))
            || seq_has_empty(fam_line(g, 3, n))),
{
    if scanned_empty(g, n + 1, 1) {
        let (f, m) = choose|f: int, m: int|
            scanned(f, m, n + 1, 1) && seq_has_empty(#[trigger] fam_line(g, f, m));
        if m < n {
            assert(scanned(f, m, n, 1) && seq_has_empty(fam_line(g, f, m)));
        } else {
            assert(m == n);
            if f == 0 {
            } else if f == 1 {
            } else if f == 2 {
            } else {
                assert(f == 3);
            }
        }
    }
    if scanned_empty(g, n, 1) {
        let (f, m) = choose|f: int, m: int|
            scanned(f, m, n, 1) && seq_has_empty(#[trigger] fam_line(g, f, m));
        assert(scanned(f, m, n + 1, 1) && seq_has_empty(fam_line(g, f, m)));
    }
    if seq_has_empty(fam_line(g, 0, n)) {
        assert(scanned(0, n, n + 1, 1) && seq_has_empty(fam_line(g, 0, n)));
    }
    if seq_has_empty(fam_line(g, 1, n)) {
        assert(scanned(1, n, n + 1, 1) && seq_has_empty(fam_line(g, 1, n)));
    }
    if seq_has_empty(fam_line(g, 2, n)) {
        assert(scanned(2, n, n + 1, 1) && seq_has_empty(fam_line(g, 2, n)));
    }
    if seq_has_empty(fam_line(g, 3, n)) {
        assert(scanned(3, n, n + 1, 1) && seq_has_empty(fam_line(g, 3, n)));
    }
}

/// Like `lemma_scanned_run_step2`, for empty cells.
pub proof fn lemma_scanned_empty_step2(g: Seq<Vec<Cell>>, n: int)
    requires
        1 <= n < 15,
    ensures
        scanned_empty(g, 15, n + 1) <==> (scanned_empty(g, 15, n) || seq_has_empty(
            fam_line(g, 4, n),
        ) || seq_has_empty(fam_line(g, 5, n))),
{
    if scanned_empty(g, 15, n + 1) {
        let (f, m) = choose|f: int, m: int|
            scanned(f, m, 15, n + 1) && seq_has_empty(#[trigger] fam_line(g, f, m));
        if f < 4 || m < n {
            assert(scanned(f, m, 15, n) && seq_has_empty(fam_line(g, f, m)));
        } else {
            assert(m == n);
            if f == 4 {
            } else {
                assert(f == 5);
            }
        }
    }
    if scanned_empty(g, 15, n) {
        let (f, m) = choose|f: int, m: int|
            scanned(f, m, 15, n) && seq_has_empty(#[trigger] fam_line(g, f, m));
        assert(scanned(f, m, 15, n + 1) && seq_has_empty(fam_line(g, f, m)));
    }
    if seq_has_empty(fam_line(g, 4, n)) {
        assert(scanned(4, n, 15, n + 1) && seq_has_empty(fam_line(g, 4, n)));
    }
    if seq_has_empty(fam_line(g, 5, n)) {
        assert(scanned(5, n, 15, n + 1) && seq_has_empty(fam_line(g, 5, n)));
    }
}

/// A run on any scanned line already decides the game, whatever part of the
/// board the sweeps still have to visit.
pub proof fn lemma_scanned_run_sound(g: Seq<Vec<Cell>>, c: Cell, n1: int, n2: int)
    requires
        c != Cell::Empty,
        scanned_run(g, c, n1, n2),
    ensures
        has_five(g, c),
{
    let (f, n) = choose|f: int, n: int|
        scanned(f, n, n1, n2) && seq_has_run(#[trigger] fam_line(g, f, n), c);
    let i = choose|i: int| run_at(fam_line(g, f, n), c, i);
    assert(is_dir(fam_dir(f).0, fam_dir(f).1));
    lemma_run_to_window(g, c, fam_start(f, n).0, fam_start(f, n).1, fam_dir(f).0, fam_dir(f).1, i);
}

/// Extending a scanned prefix by one cell adds no run of `c` unless the five
/// cells now at its end all show `c`.
pub proof fn lemma_take_no_new_run(s: Seq<Cell>, c: Cell, i: int)
    requires
        0 <= i < s.len(),
        !seq_has_run(s.take(i), c),
        i >= 4 ==> !(s[i] == c && s[i - 1] == c && s[i - 2] == c && s[i - 3] == c && s[i - 4] == c),
    ensures
        !seq_has_run(s.take(i + 1), c),
{
    if seq_has_run(s.take(i + 1), c) {
        let st = s.take(i + 1);
        let j = choose|j: int| run_at(st, c, j);
        assert(s.take(i + 1)[j] == s[j]);
        assert(s.take(i + 1)[j + 1] == s[j + 1]);
        assert(s.take(i + 1)[j + 2] == s[j + 2]);
        assert(s.take(i + 1)[j + 3] == s[j + 3]);
        assert(s.take(i + 1)[j + 4] == s[j + 4]);
        if j + 5 <= i {
            assert(run_at(s.take(i), c, j)) by {
                assert(s.take(i)[j] == s[j]);
                assert(s.take(i)[j + 1] == s[j + 1]);
                assert(s.take(i)[j + 2] == s[j + 2]);
                assert(s.take(i)[j + 3] == s[j + 3]);
                assert(s.take(i)[j + 4] == s[j + 4]);
            }
        } else {
            assert(j == i - 4);
        }
        assert(false);
    }
}

/// Extending a scanned prefix by one cell sees an empty cell exactly when one
/// was already seen or the new cell is empty.
pub proof fn lemma_take_empty_step(s: Seq<Cell>, i: int)
    requires
        0 <= i < s.len(),
    ensures
        seq_has_empty(s.take(i + 1)) <==> (seq_has_empty(s.take(i)) || s[i] == Cell::Empty),
{
    if seq_has_empty(s.take(i)) {
        let k = choose|k: int| 0 <= k < s.take(i).len() && s.take(i)[k] == Cell::Empty;
        assert(s.take(i + 1)[k] == Cell::Empty);
    }
    if s[i] == Cell::Empty {
        assert(s.take(i + 1)[i] == Cell::Empty);
    }
    if seq_has_empty(s.take(i + 1)) && !(s[i] == Cell::Empty) {
        let st = s.take(i + 1);
        let k = choose|k: int| 0 <= k < st.len() && st[k] == Cell::Empty;
        assert(s.take(i + 1)[k] == s[k]);
        assert(k < i);
        assert(s.take(i)[k] == Cell::Empty);
    }
}

/// After both sweeps, the scanned lines carry a run of `c` exactly when the
/// board has five `c` stones in a row: the six families together cover every
/// row, column, and diagonal of the board.
pub proof fn lemma_all_lines_runs(g: Seq<Vec<Cell>>, c: Cell)
    requires
        c != Cell::Empty,
    ensures
        scanned_run(g, c, 15, 15) <==> has_five(g, c),
{
    if scanned_run(g, c, 15, 15) {
        let (f, n) = choose|f: int, n: int|
            scanned(f, n, 15, 15) && seq_has_run(#[trigger] fam_line(g, f, n), c);
        let i = choose|i: int| run_at(fam_line(g, f, n), c, i);
        assert(is_dir(fam_dir(f).0, fam_dir(f).1));
        lemma_run_to_window(g, c, fam_start(f, n).0, fam_start(f, n).1, fam_dir(f).0, fam_dir(f).1, i);
    }
    if has_five(g, c) {
        let (x, y, dx, dy) = choose|x: int, y: int, dx: int, dy: int| win_at(g, c, x, y, dx, dy);
        assert(in_range(x, y));
        if dx == 1 && dy == 0 {
            lemma_window_to_run(g, c, 0, y, 1, 0, x, y);
            assert(scanned(0, y, 15, 15) && seq_has_run(fam_line(g, 0, y), c));
        } else if dx == 0 && dy == 1 {
            lemma_window_to_run(g, c, x, 0, 0, 1, x, y);
            assert(scanned(1, x, 15, 15) && seq_has_run(fam_line(g, 1, x), c));
        } else if dx == 1 && dy == 1 {
            if y >= x {
                lemma_window_to_run(g, c, 0, y - x, 1, 1, x, y);
                assert(scanned(2, y - x, 15, 15) && seq_has_run(fam_line(g, 2, y - x), c));
            } else {
                lemma_window_to_run(g, c, x - y, 0, 1, 1, x, y);
                assert(scanned(4, x - y, 15, 15) && seq_has_run(fam_line(g, 4, x - y), c));
            }
        } else {
            assert(dx == 1 && dy == -1);
            if x + y <= 14 {
                lemma_window_to_run(g, c, 0, x + y, 1, -1, x, y);
                assert(scanned(3, x + y, 15, 15) && seq_has_run(fam_line(g, 3, x + y), c));
            } else {
                lemma_window_to_run(g, c, x + y - 14, 14, 1, -1, x, y);
                assert(scanned(5, x + y - 14, 15, 15) && seq_has_run(fam_line(g, 5, x + y - 14), c));
            }
        }
    }
}

/// After both sweeps, some scanned line holds an empty cell exactly when the
/// board is not full.
pub proof fn lemma_all_lines_empty(g: Seq<Vec<Cell>>)
    ensures
        scanned_empty(g, 15, 15) <==> !board_full(g),
{
    if scanned_empty(g, 15, 15) {
        let (f, n) = choose|f: int, n: int|
            scanned(f, n, 15, 15) && seq_has_empty(#[trigger] fam_line(g, f, n));
        let i = choose|i: int| 0 <= i < fam_line(g, f, n).len() && fam_line(g, f, n)[i] == Cell::Empty;
        assert(is_dir(fam_dir(f).0, fam_dir(f).1));
        lemma_line_empty_to_board(
            g,
            fam_start(f, n).0,
            fam_start(f, n).1,
            fam_dir(f).0,
            fam_dir(f).1,
            i,
        );
    }
    if !board_full(g) {
        let (x, y) = choose|x: int, y: int| in_range(x, y) && gcell(g, x, y) == Cell::Empty;
        lemma_cell_on_line(g, 0, y, 1, 0, x, y);
        let i = choose|i: int|
            0 <= i < line_cells(g, 0, y, 1, 0).len() && #[trigger] line_cells(g, 0, y, 1, 0)[i]
                == gcell(g, x, y);
        assert(seq_has_empty(fam_line(g, 0, y)));
        assert(scanned(0, y, 15, 15) && seq_has_empty(fam_line(g, 0, y)));
    }
}

/// What a finished scan reports about grid `g`: a reported winner really has
/// five in a row (with a genuine winning line attached), a decisive answer
/// comes exactly when some color has five in a row, otherwise the game is
/// open exactly when the board still has room — and the reported winner and
/// line are exactly [`scan_win`] of the grid, the first completed run of the
/// first decided line in sweep order, so the verdict is a function of the
/// grid alone.
pub open spec fn result_spec_ok(g: Seq<Vec<Cell>>, r: GameResult) -> bool {
    &&& (r matches GameResult::BlackWon(l) ==> has_five(g, Cell::Black) && valid_win_line(
        g,
        Cell::Black,
        l@,
    ))
    &&& (r matches GameResult::WhiteWon(l) ==> has_five(g, Cell::White) && valid_win_line(
        g,
        Cell::White,
        l@,
    ))
    &&& (r.is_won() <==> (has_five(g, Cell::Black) || has_five(g, Cell::White)))
    &&& (!r.is_won() ==> (r == GameResult::NotFinished <==> !board_full(g)))
    &&& (!r.is_won() ==> (r == GameResult::NotFinished || r == GameResult::Draw))
    &&& (r.is_won() <==> scan_win(g) is Some)
    &&& (r matches GameResult::BlackWon(l) ==> scan_win(g) == Some((Cell::Black, l@)))
    &&& (r matches GameResult::WhiteWon(l) ==> scan_win(g) == Some((Cell::White, l@)))
}

/// Invariant of the scanning sweeps: the fold `r` is decisive exactly when an
/// already-scanned line holds a run, and otherwise records whether a scanned
/// line still has room.
pub open spec fn fold_ok(g: Seq<Vec<Cell>>, r: GameResult, n1: int, n2: int) -> bool {
    &&& (r matches GameResult::BlackWon(l) ==> has_five(g, Cell::Black) && valid_win_line(
        g,
        Cell::Black,
        l@,
    ))
    &&& (r matches GameResult::WhiteWon(l) ==> has_five(g, Cell::White) && valid_win_line(
        g,
        Cell::White,
        l@,
    ))
    &&& (r.is_won() <==> (scanned_run(g, Cell::Black, n1, n2) || scanned_run(
        g,
        Cell::White,
        n1,
        n2,
    )))
    &&& (!r.is_won() ==> (r == GameResult::NotFinished <==> scanned_empty(g, n1, n2)))
    &&& (!r.is_won() ==> (r == GameResult::NotFinished || r == GameResult::Draw))
}

} // verus!
