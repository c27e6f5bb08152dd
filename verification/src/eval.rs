//! The evaluator: terminal positions, breakthrough triangles, and the
//! additive heuristic.
use vstd::prelude::*;
use crate::board::{BLACK, Board, goal_row, on_board, valid_player, WHITE};
use crate::moves::{get_valid_moves, has_legal_move};

verus! {

/// Magnitude of the score of a decided game.
pub const MAX_SCORE: i32 = 1_000_000;

/// The lowest score.
pub const MIN_SCORE: i32 = -1_000_000;

/// Score of a position that has occurred three times on the current path.
pub const DRAW_SCORE: i32 = -30;

/// Below every score: what a node holds before it has tried a move.
pub const NO_SCORE: i32 = -2147483647;

/// Unit of the score of an unstoppable breakthrough.
pub const WIN_BY_TRIANGLE: i32 = 50_000;

/// Side `p` has a man on its goal row.
pub open spec fn has_won(g: Seq<Seq<i8>>, p: i8) -> bool {
    exists|c: int| 0 <= c < 9 && #[trigger] g[goal_row(p)][c] == p
}

/// The game is over for the side to move `p`: the other side stands on its
/// goal row, or `p` has no legal move.
pub open spec fn game_over(g: Seq<Seq<i8>>, p: i8) -> bool {
    has_won(g, (-p) as i8) || !has_legal_move(g, p)
}

/// How many rows a man of side `p` on row `r` is away from its goal row.
pub open spec fn rows_to_goal(p: i8, r: int) -> int {
    if p == 1 {
        8 - r
    } else {
        r
    }
}

/// How many rows row `n` lies ahead of row `i` for side `p`; negative where
/// it lies behind.
pub open spec fn rows_ahead(p: i8, i: int, n: int) -> int {
    if p == 1 {
        n - i
    } else {
        i - n
    }
}

/// Cell (`n`, `m`) lies in the triangle that opens from a man of side `p` on
/// (`i`, `j`) towards its goal row. A row `d` rows ahead of the man reaches
/// `d` columns to either side when the other side is to move, and one column
/// less when `p` itself is to move.
pub open spec fn in_triangle(to_move: i8, p: i8, i: int, j: int, n: int, m: int) -> bool {
    let d = rows_ahead(p, i, n);
    let w = if to_move == p {
        d - 1
    } else {
        d
    };
    on_board(n, m) && d >= 1 && j - w <= m <= j + w
}

/// No opposing man stands in the triangle between the man of side `p` on
/// (`i`, `j`) and its goal row. A man on its goal row has an empty triangle.
pub open spec fn triangle_open(g: Seq<Seq<i8>>, to_move: i8, p: i8, i: int, j: int) -> bool {
    forall|n: int, m: int| #[trigger] in_triangle(to_move, p, i, j, n, m) ==> g[n][m] != -p
}

/// A man of side `p` stands on (`i`, `j`) and its triangle is open.
pub open spec fn is_runner(g: Seq<Seq<i8>>, to_move: i8, p: i8, i: int, j: int) -> bool {
    on_board(i, j) && g[i][j] == p && triangle_open(g, to_move, p, i, j)
}

/// Side `p` has a man with an open triangle exactly `d` rows from its goal.
pub open spec fn runner_at_distance(g: Seq<Seq<i8>>, to_move: i8, p: i8, d: int) -> bool {
    exists|i: int, j: int| #[trigger] is_runner(g, to_move, p, i, j) && rows_to_goal(p, i) == d
}

/// The smallest distance, not below `d`, at which side `p` has a man with an
/// open triangle; 9 where it has none.
pub open spec fn nearest_runner_from(g: Seq<Seq<i8>>, to_move: i8, p: i8, d: int) -> int
    decreases 9 - d,
{
    if d >= 9 {
        9
    } else if runner_at_distance(g, to_move, p, d) {
        d
    } else {
        nearest_runner_from(g, to_move, p, d + 1)
    }
}

/// How close side `p` is to an unstoppable breakthrough: the rows that its
/// nearest man with an open triangle still has to go, or 9 where no man of
/// `p` has an open triangle.
pub open spec fn breakthrough_distance(g: Seq<Seq<i8>>, to_move: i8, p: i8) -> int {
    nearest_runner_from(g, to_move, p, 0)
}

/// Heuristic worth of one cell: material, advancement and distance from the
/// middle column. A white man counts positive, a black man negative.
pub open spec fn cell_value(v: i8, r: int, c: int) -> int {
    let off_centre = if c >= 4 {
        c - 4
    } else {
        4 - c
    };
    if v == -1 {
        20 + 3 * (8 - r) + 2 * off_centre
    } else if v == 1 {
        -(20 + 3 * r + 2 * off_centre)
    } else {
        0
    }
}

/// Sum of the worth of the first `n` cells, row by row.
pub open spec fn material_upto(g: Seq<Seq<i8>>, n: nat) -> int
    decreases n,
{
    if n == 0 {
        0
    } else {
        material_upto(g, (n - 1) as nat) + cell_value(
            g[(n - 1) / 9][(n - 1) % 9],
            (n - 1) / 9,
            (n - 1) % 9,
        )
    }
}

/// The score of a position with `to_move` to play; high scores favour
/// white. A decided game scores the extreme value against the side to move. A
/// position in which either side has an open triangle scores by how much
/// nearer one breakthrough is than the other. Any other position scores the
/// sum of its cells.
pub open spec fn board_score(g: Seq<Seq<i8>>, to_move: i8) -> int {
    if game_over(g, to_move) {
        to_move * MAX_SCORE
    } else {
        let white = breakthrough_distance(g, to_move, WHITE);
        let black = breakthrough_distance(g, to_move, BLACK);
        if white < 9 || black < 9 {
            (2 * (black - white) - to_move) * WIN_BY_TRIANGLE
        } else {
            material_upto(g, 81)
        }
    }
}

/// The score seen by the side to move, as negamax wants it: the score of the
/// position where white is to move, and its negation where black is.
pub open spec fn leaf_score(g: Seq<Seq<i8>>, to_move: i8) -> int {
    if to_move == BLACK {
        -board_score(g, to_move)
    } else {
        board_score(g, to_move)
    }
}

/// Whether `player` has a man on its goal row.
pub fn is_winner(board: &Board, player: i8) -> (won: bool)
    ensures
        won == has_won(board@, player),
{
    let target_row: usize = if player == 1 { 8 } else { 0 };
    let mut j: usize = 0;
    while j < 9
        invariant
            j <= 9,
            target_row == goal_row(player),
            forall|c: int| 0 <= c < j ==> board@[goal_row(player)][c] != player,
        decreases 9 - j,
    {
        if board.get(target_row, j) == player {
            return true;
        }
        j += 1;
    }
    false
}

/// Whether the game is over for `player`, who is to move.
pub fn is_game_over(board: &Board, player: i8) -> (over: bool)
    requires
        valid_player(player),
    ensures
        over == game_over(board@, player),
{
    if is_winner(board, -player) {
        return true;
    }
    get_valid_moves(board, player).len() == 0
}

/// Whether the man of `player` on (`i`, `j`) has an open triangle, with
/// `player_to_move` to play.
pub fn triangle_to_win(board: &Board, player_to_move: i8, player: i8, i: usize, j: usize) -> (open:
    bool)
    requires
        valid_player(player),
        i < 9,
        j < 9,
    ensures
        open == triangle_open(board@, player_to_move, player, i as int, j as int),
{
    let reach: usize = if player == 1 { 8 - i } else { i };
    let margin: usize = if player_to_move == player { 1 } else { 0 };
    let mut d: usize = 1;
    while d <= reach
        invariant
            1 <= d <= reach + 1,
            reach == rows_to_goal(player, i as int),
            reach <= 8,
            valid_player(player),
            i < 9,
            j < 9,
            margin == if player_to_move == player { 1int } else { 0int },
            forall|n: int, m: int|
                #[trigger] in_triangle(player_to_move, player, i as int, j as int, n, m)
                    && rows_ahead(player, i as int, n) < d ==> board@[n][m] != -player,
        decreases reach + 1 - d,
    {
        let n: usize = if player == 1 { i + d } else { i - d };
        let w: usize = d - margin;
        let first: usize = if j >= w { j - w } else { 0 };
        let last: usize = if j + w < 9 { j + w } else { 8 };
        let mut m: usize = first;
        while m <= last
            invariant
                first <= m <= last + 1 || (m == first && first > last),
                last <= 8,
                n < 9,
                d >= 1,
                valid_player(player),
                rows_ahead(player, i as int, n as int) == d,
                w == d - margin,
                margin == if player_to_move == player { 1int } else { 0int },
                first == if j >= w { j - w } else { 0int },
                last == if j + w < 9 { j + w } else { 8int },
                forall|c: int| first <= c < m ==> board@[n as int][c] != -player,
            decreases last + 1 - m,
        {
            if board.get(n, m) == -player {
                proof {
                    assert(in_triangle(player_to_move, player, i as int, j as int, n as int,
                        m as int));
                }
                return false;
            }
            m += 1;
        }
        proof {
            assert forall|n2: int, m2: int|
                #[trigger] in_triangle(player_to_move, player, i as int, j as int, n2, m2)
                    && rows_ahead(player, i as int, n2) < d + 1 implies board@[n2][m2]
                    != -player by {
                if rows_ahead(player, i as int, n2) == d {
                    assert(n2 == n);
                    assert(first <= m2 <= last);
                }
            }
        }
        d += 1;
    }
    proof {
        assert forall|n2: int, m2: int| #[trigger]
            in_triangle(player_to_move, player, i as int, j as int, n2, m2) implies board@[n2][m2]
            != -player by {
            assert(rows_ahead(player, i as int, n2) <= reach);
        }
    }
    true
}

/// A distance at which a man with an open triangle stands, and below which
/// none does, is the breakthrough distance.
proof fn lemma_nearest_runner(g: Seq<Seq<i8>>, to_move: i8, p: i8, d: int, k: int)
    requires
        0 <= k <= d <= 9,
        d < 9 ==> runner_at_distance(g, to_move, p, d),
        forall|i: int, j: int| #[trigger]
            is_runner(g, to_move, p, i, j) ==> d <= rows_to_goal(p, i),
    ensures
        nearest_runner_from(g, to_move, p, k) == d,
    decreases d - k,
{
    if k < d {
        lemma_nearest_runner(g, to_move, p, d, k + 1);
    }
}

/// The heuristic sum stays far inside the range of scores.
proof fn lemma_material_bound(g: Seq<Seq<i8>>, n: nat)
    requires
        n <= 81,
    ensures
        -52 * n <= material_upto(g, n) <= 52 * n,
    decreases n,
{
    if n > 0 {
        lemma_material_bound(g, (n - 1) as nat);
        assert(0 <= (n - 1) / 9 <= 8 && 0 <= (n - 1) % 9 <= 8);
    }
}

/// Every score lies between the two extremes.
pub proof fn lemma_board_score_bounds(g: Seq<Seq<i8>>, to_move: i8)
    requires
        valid_player(to_move),
    ensures
        -MAX_SCORE <= board_score(g, to_move) <= MAX_SCORE,
        -MAX_SCORE <= leaf_score(g, to_move) <= MAX_SCORE,
{
    lemma_material_bound(g, 81);
    lemma_nearest_range(g, to_move, WHITE, 0);
    lemma_nearest_range(g, to_move, BLACK, 0);
}

proof fn lemma_nearest_range(g: Seq<Seq<i8>>, to_move: i8, p: i8, d: int)
    requires
        0 <= d <= 9,
    ensures
        d <= nearest_runner_from(g, to_move, p, d) <= 9,
    decreases 9 - d,
{
    if d < 9 && !runner_at_distance(g, to_move, p, d) {
        lemma_nearest_range(g, to_move, p, d + 1);
    }
}

proof fn lemma_runner_bounds_nearest(g: Seq<Seq<i8>>, to_move: i8, p: i8, d: int, k: int)
    requires
        0 <= k <= d < 9,
        runner_at_distance(g, to_move, p, d),
    ensures
        nearest_runner_from(g, to_move, p, k) <= d,
    decreases d - k,
{
    if k < d && !runner_at_distance(g, to_move, p, k) {
        lemma_runner_bounds_nearest(g, to_move, p, d, k + 1);
    }
}

/// A side with an open lane, facing a side without one, gets the bonus of
/// the breakthrough: where the game is not over, a man of `p` has an open
/// triangle and no man of the other side has one, the score is at least
/// `WIN_BY_TRIANGLE` in favour of `p`.
pub proof fn lemma_open_lane_scores_the_bonus(g: Seq<Seq<i8>>, to_move: i8, p: i8, i: int, j: int)
    requires
        valid_player(to_move),
        valid_player(p),
        !game_over(g, to_move),
        is_runner(g, to_move, p, i, j),
        breakthrough_distance(g, to_move, (-p) as i8) == 9,
    ensures
        p == WHITE ==> board_score(g, to_move) >= WIN_BY_TRIANGLE,
        p == BLACK ==> board_score(g, to_move) <= -WIN_BY_TRIANGLE,
{
    let d = rows_to_goal(p, i);
    assert(runner_at_distance(g, to_move, p, d));
    lemma_runner_bounds_nearest(g, to_move, p, d, 0);
    lemma_nearest_range(g, to_move, p, 0);
}

/// Scores the position for `player_to_move`; high scores favour white.
pub fn evaluate_board(board: &Board, player_to_move: i8) -> (score: i32)
    requires
        valid_player(player_to_move),
    ensures
        score == board_score(board@, player_to_move),
        -MAX_SCORE <= score <= MAX_SCORE,
{
    if is_game_over(board, player_to_move) {
        return (player_to_move as i32) * MAX_SCORE;
    }
    let mut score: i32 = 0;
    let mut white_rows: usize = 9;
    let mut black_rows: usize = 9;
    let ghost mut white_at: (int, int) = (0, 0);
    let ghost mut black_at: (int, int) = (0, 0);
    let mut i: usize = 0;
    while i < 9
        invariant
            i <= 9,
            valid_player(player_to_move),
            score == material_upto(board@, (i * 9) as nat),
            -52 * (i * 9) <= score <= 52 * (i * 9),
            white_rows <= 9,
            black_rows <= 9,
            white_rows < 9 ==> is_runner(board@, player_to_move, WHITE, white_at.0, white_at.1)
                && white_at.0 == white_rows,
            black_rows < 9 ==> is_runner(board@, player_to_move, BLACK, black_at.0, black_at.1)
                && 8 - black_at.0 == black_rows,
            forall|a: int, b: int| #[trigger]
                is_runner(board@, player_to_move, WHITE, a, b) && a * 9 + b < i * 9 ==> white_rows
                    <= a,
            forall|a: int, b: int| #[trigger]
                is_runner(board@, player_to_move, BLACK, a, b) && a * 9 + b < i * 9 ==> black_rows
                    <= 8 - a,
        decreases 9 - i,
    {
        let mut j: usize = 0;
        while j < 9
            invariant
                i < 9,
                j <= 9,
                valid_player(player_to_move),
                score == material_upto(board@, (i * 9 + j) as nat),
                -52 * (i * 9 + j) <= score <= 52 * (i * 9 + j),
                white_rows <= 9,
                black_rows <= 9,
                white_rows < 9 ==> is_runner(board@, player_to_move, WHITE, white_at.0, white_at.1)
                    && white_at.0 == white_rows,
                black_rows < 9 ==> is_runner(board@, player_to_move, BLACK, black_at.0, black_at.1)
                    && 8 - black_at.0 == black_rows,
                forall|a: int, b: int| #[trigger]
                    is_runner(board@, player_to_move, WHITE, a, b) && a * 9 + b < i * 9 + j
                        ==> white_rows <= a,
                forall|a: int, b: int| #[trigger]
                    is_runner(board@, player_to_move, BLACK, a, b) && a * 9 + b < i * 9 + j
                        ==> black_rows <= 8 - a,
            decreases 9 - j,
        {
            let v = board.get(i, j);
            let off_centre: i32 = if j >= 4 { (j - 4) as i32 } else { (4 - j) as i32 };
            let ghost n = (i * 9 + j) as int;
            assert(n / 9 == i && n % 9 == j);
            if v == WHITE {
                if triangle_to_win(board, player_to_move, WHITE, i, j) {
                    if i < white_rows {
                        white_rows = i;
                        proof {
                            white_at = (i as int, j as int);
                        }
                    }
                }
                score = score + 20 + 3 * (8 - i as i32) + 2 * off_centre;
            } else if v == BLACK {
                if triangle_to_win(board, player_to_move, BLACK, i, j) {
                    if 8 - i < black_rows {
                        black_rows = 8 - i;
                        proof {
                            black_at = (i as int, j as int);
                        }
                    }
                }
                score = score - 20 - 3 * (i as i32) - 2 * off_centre;
            }
            proof {
                assert(score == material_upto(board@, (n + 1) as nat));
                assert forall|a: int, b: int| #[trigger]
                    is_runner(board@, player_to_move, WHITE, a, b) && a * 9 + b < n
                    + 1 implies white_rows <= a by {
                    if a * 9 + b == n {
                        assert(a == i && b == j);
                    }
                }
                assert forall|a: int, b: int| #[trigger]
                    is_runner(board@, player_to_move, BLACK, a, b) && a * 9 + b < n
                    + 1 implies black_rows <= 8 - a by {
                    if a * 9 + b == n {
                        assert(a == i && b == j);
                    }
                }
            }
            j += 1;
        }
        i += 1;
    }
    proof {
        if white_rows < 9 {
            assert(is_runner(board@, player_to_move, WHITE, white_at.0, white_at.1)
                && rows_to_goal(WHITE, white_at.0) == white_rows);
        }
        if black_rows < 9 {
            assert(is_runner(board@, player_to_move, BLACK, black_at.0, black_at.1)
                && rows_to_goal(BLACK, black_at.0) == black_rows);
        }
        lemma_nearest_runner(board@, player_to_move, WHITE, white_rows as int, 0);
        lemma_nearest_runner(board@, player_to_move, BLACK, black_rows as int, 0);
    }
    if white_rows != 9 || black_rows != 9 {
        return (2 * (black_rows as i32 - white_rows as i32) - player_to_move as i32)
            * WIN_BY_TRIANGLE;
    }
    score
}

} // verus!
