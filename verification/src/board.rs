//! The position: a 9x9 grid of cell states, and the moves played on it.
use vstd::prelude::*;

verus! {

/// Number of rows of the grid.
pub const ROWS: usize = 9;

/// Number of columns of the grid.
pub const COLS: usize = 9;

/// The side whose men move towards row 0.
pub const WHITE: i8 = -1;

/// The side whose men move towards row 8.
pub const BLACK: i8 = 1;

/// A move: origin row, origin column, target row, target column.
pub type Move = (usize, usize, usize, usize);

/// What the library reports to its caller when it cannot do what was asked.
#[derive(Clone, Copy, Debug, PartialEq, Eq, Structural)]
pub enum EngineError {
    /// The grid handed in does not have nine rows of nine cells.
    InvalidShape,
    /// A cell of the grid holds something other than -1, 0 or 1.
    InvalidCell,
    /// The side is neither -1 nor 1.
    InvalidSide,
    /// The search produced no move: the game is over, the position has
    /// already occurred twice, or the budget ran out before the first
    /// iteration completed.
    NoLegalMove,
}

/// The two sides are written 1 and -1; 0 is an empty cell.
pub open spec fn valid_player(p: i8) -> bool {
    p == 1 || p == -1
}

/// Row direction in which the men of `p` advance: side 1 moves towards row 8,
/// side -1 towards row 0.
pub open spec fn forward(p: i8) -> int {
    if p == 1 {
        1
    } else {
        -1
    }
}

/// The row a side must reach to win.
pub open spec fn goal_row(p: i8) -> int {
    if p == 1 {
        8
    } else {
        0
    }
}

/// Row `r` and column `c` name a cell of the grid.
pub open spec fn on_board(r: int, c: int) -> bool {
    0 <= r < 9 && 0 <= c < 9
}

/// A grid has nine rows of nine cells.
pub open spec fn grid_shape(g: Seq<Seq<i8>>) -> bool {
    &&& g.len() == 9
    &&& forall|r: int| 0 <= r < 9 ==> (#[trigger] g[r]).len() == 9
}

/// Every cell of the grid is empty or holds a man of one of the two sides.
pub open spec fn grid_cells_valid(g: Seq<Seq<i8>>) -> bool {
    forall|r: int, c: int| on_board(r, c) ==> -1 <= #[trigger] g[r][c] <= 1
}

/// The grid `g` with cell (`r`, `c`) replaced by `v`.
pub open spec fn grid_set(g: Seq<Seq<i8>>, r: int, c: int, v: i8) -> Seq<Seq<i8>> {
    g.update(r, g[r].update(c, v))
}

/// The 9x9 grid. Whose turn it is travels beside the board, not in it.
#[derive(Clone, Copy, Debug)]
pub struct Board {
    pub cells: [[i8; 9]; 9],
}

impl View for Board {
    type V = Seq<Seq<i8>>;

    open spec fn view(&self) -> Seq<Seq<i8>> {
        Seq::new(9, |r: int| self.cells@[r]@)
    }
}

impl Board {
    /// The board with no man on it.
    pub fn empty() -> (b: Board)
        ensures
            forall|r: int, c: int| on_board(r, c) ==> b@[r][c] == 0,
    {
        Board { cells: [[0i8; 9]; 9] }
    }

    /// Reads one cell.
    pub fn get(&self, r: usize, c: usize) -> (v: i8)
        requires
            r < 9,
            c < 9,
        ensures
            v == self@[r as int][c as int],
    {
        self.cells[r][c]
    }

    /// Writes one cell and leaves the others as they were.
    pub fn set(&mut self, r: usize, c: usize, v: i8)
        requires
            r < 9,
            c < 9,
        ensures
            final(self)@ == grid_set(old(self)@, r as int, c as int, v),
    {
        self.cells[r][c] = v;
        assert(self@ =~~= grid_set(old(self)@, r as int, c as int, v));
    }

    /// Two boards with the same grid are the same board.
    pub proof fn lemma_view_injective(a: Board, b: Board)
        requires
            a@ == b@,
        ensures
            a == b,
    {
        assert forall|r: int| 0 <= r < 9 implies a.cells[r] == b.cells[r] by {
            assert(a@[r] == b@[r]);
            assert(a.cells[r] =~= b.cells[r]);
        }
        assert(a.cells =~= b.cells);
    }
}

/// The grid that a list of rows stands for.
pub open spec fn rows_grid(rows: Seq<Vec<i8>>) -> Seq<Seq<i8>> {
    Seq::new(rows.len(), |r: int| rows[r]@)
}

/// Makes a board of nine rows of nine cells. Rows of any other shape are
/// refused, and so is a cell that holds anything but -1, 0 or 1; a wrong
/// shape is reported before a wrong cell.
pub fn board_from_rows(rows: &Vec<Vec<i8>>) -> (result: Result<Board, EngineError>)
    ensures
        match result {
            Ok(b) => b@ == rows_grid(rows@) && grid_shape(rows_grid(rows@)) && grid_cells_valid(
                rows_grid(rows@),
            ),
            Err(e) => e == if !grid_shape(rows_grid(rows@)) {
                EngineError::InvalidShape
            } else {
                EngineError::InvalidCell
            } && !(grid_shape(rows_grid(rows@)) && grid_cells_valid(rows_grid(rows@))),
        },
{
    let ghost g = rows_grid(rows@);
    if rows.len() != 9 {
        return Err(EngineError::InvalidShape);
    }
    let mut r: usize = 0;
    while r < 9
        invariant
            r <= 9,
            rows@.len() == 9,
            g == rows_grid(rows@),
            forall|i: int| 0 <= i < r ==> (#[trigger] g[i]).len() == 9,
        decreases 9 - r,
    {
        if rows[r].len() != 9 {
            assert(g[r as int].len() != 9);
            return Err(EngineError::InvalidShape);
        }
        r += 1;
    }
    let mut board = Board::empty();
    let mut i: usize = 0;
    while i < 9
        invariant
            i <= 9,
            rows@.len() == 9,
            g == rows_grid(rows@),
            grid_shape(g),
            forall|a: int, b: int| 0 <= a < i && 0 <= b < 9 ==> board@[a][b] == g[a][b] && -1
                <= #[trigger] g[a][b] <= 1,
        decreases 9 - i,
    {
        let mut j: usize = 0;
        while j < 9
            invariant
                i < 9,
                j <= 9,
                rows@.len() == 9,
                g == rows_grid(rows@),
                grid_shape(g),
                forall|a: int, b: int| 0 <= a < i && 0 <= b < 9 ==> board@[a][b] == g[a][b] && -1
                    <= #[trigger] g[a][b] <= 1,
                forall|b: int| 0 <= b < j ==> board@[i as int][b] == g[i as int][b] && -1
                    <= #[trigger] g[i as int][b] <= 1,
            decreases 9 - j,
        {
            assert(g[i as int].len() == 9);
            let v = rows[i][j];
            if v < -1 || v > 1 {
                assert(!(-1 <= g[i as int][j as int] <= 1));
                return Err(EngineError::InvalidCell);
            }
            board.set(i, j, v);
            j += 1;
        }
        i += 1;
    }
    proof {
        assert(board@ =~~= g);
    }
    Ok(board)
}

/// The grid of a board always has the board's shape.
pub proof fn lemma_board_shape(b: Board)
    ensures
        grid_shape(b@),
{
}

} // verus!
