//! The move generator, with the forced-capture rule.
use vstd::prelude::*;
use vstd::seq_lib::lemma_seq_contains_after_push;
use crate::board::{Board, forward, grid_set, grid_shape, Move, valid_player};

verus! {

/// All four coordinates of the move lie on the grid.
pub open spec fn move_on_board(m: Move) -> bool {
    m.0 < 9 && m.1 < 9 && m.2 < 9 && m.3 < 9
}

/// `m` is a capture for side `p`: a man of `p` jumps two rows forward and two
/// columns aside, over an opposing man on the diagonal cell between, onto an
/// empty cell.
pub open spec fn is_capture(g: Seq<Seq<i8>>, p: i8, m: Move) -> bool {
    &&& move_on_board(m)
    &&& g[m.0 as int][m.1 as int] == p
    &&& m.2 == m.0 + 2 * forward(p)
    &&& (m.3 == m.1 - 2 || m.3 == m.1 + 2)
    &&& g[m.0 + forward(p)][(m.1 + m.3) / 2] == -p
    &&& g[m.2 as int][m.3 as int] == 0
}

/// `m` is a quiet move for side `p`: a man of `p` steps one cell straight
/// ahead or one cell sideways, onto an empty cell.
pub open spec fn is_step(g: Seq<Seq<i8>>, p: i8, m: Move) -> bool {
    &&& move_on_board(m)
    &&& g[m.0 as int][m.1 as int] == p
    &&& g[m.2 as int][m.3 as int] == 0
    &&& ((m.2 == m.0 + forward(p) && m.3 == m.1) || (m.2 == m.0 && (m.3 == m.1 - 1 || m.3
        == m.1 + 1)))
}

/// Side `p` has at least one capture.
pub open spec fn has_capture(g: Seq<Seq<i8>>, p: i8) -> bool {
    exists|m: Move| is_capture(g, p, m)
}

/// `m` may be played by side `p`: captures are forced, so a quiet move is
/// legal only where no capture exists.
pub open spec fn is_legal(g: Seq<Seq<i8>>, p: i8, m: Move) -> bool {
    if has_capture(g, p) {
        is_capture(g, p, m)
    } else {
        is_step(g, p, m)
    }
}

/// Side `p` has a move to play.
pub open spec fn has_legal_move(g: Seq<Seq<i8>>, p: i8) -> bool {
    exists|m: Move| is_legal(g, p, m)
}

/// The move spans two rows, which is how a capture is told from a quiet move.
pub open spec fn is_jump(m: Move) -> bool {
    m.0 - m.2 == 2 || m.2 - m.0 == 2
}

/// The grid after side `p` has played `m`: the origin is emptied, the target
/// takes the man, and for a jump the cell midway is emptied too.
pub open spec fn grid_after(g: Seq<Seq<i8>>, p: i8, m: Move) -> Seq<Seq<i8>> {
    let moved = grid_set(grid_set(g, m.0 as int, m.1 as int, 0), m.2 as int, m.3 as int, p);
    if is_jump(m) {
        grid_set(moved, (m.0 + m.2) / 2, (m.1 + m.3) / 2, 0)
    } else {
        moved
    }
}

/// The grid after the move `m` of side `p` has been taken back: the target is
/// emptied, the man returns to the origin, and a captured man of the other
/// side returns to the cell midway.
pub open spec fn grid_before(g: Seq<Seq<i8>>, p: i8, m: Move, captured: bool) -> Seq<Seq<i8>> {
    let moved = grid_set(grid_set(g, m.2 as int, m.3 as int, 0), m.0 as int, m.1 as int, p);
    if captured {
        grid_set(moved, (m.0 + m.2) / 2, (m.1 + m.3) / 2, (-p) as i8)
    } else {
        moved
    }
}

/// Taking back a move that was legal where it was played restores the grid
/// cell for cell.
pub proof fn lemma_grid_restored(g: Seq<Seq<i8>>, p: i8, m: Move)
    requires
        grid_shape(g),
        valid_player(p),
        is_capture(g, p, m) || is_step(g, p, m),
    ensures
        grid_before(grid_after(g, p, m), p, m, is_jump(m)) == g,
{
    assert(grid_before(grid_after(g, p, m), p, m, is_jump(m)) =~~= g);
}

/// Number of occupied cells among the first `n`, row by row.
pub open spec fn occupied_upto(g: Seq<Seq<i8>>, n: nat) -> nat
    decreases n,
{
    if n == 0 {
        0
    } else {
        occupied_upto(g, (n - 1) as nat) + if g[(n - 1) / 9][(n - 1) % 9] != 0 {
            1nat
        } else {
            0nat
        }
    }
}

/// Number of men on the grid.
pub open spec fn men_on(g: Seq<Seq<i8>>) -> nat {
    occupied_upto(g, 81)
}

proof fn lemma_occupied_set(g: Seq<Seq<i8>>, r: int, c: int, v: i8, n: nat)
    requires
        grid_shape(g),
        0 <= r < 9,
        0 <= c < 9,
        n <= 81,
    ensures
        occupied_upto(grid_set(g, r, c, v), n) == occupied_upto(g, n) + if r * 9 + c < n {
            (if v != 0 { 1int } else { 0int }) - (if g[r][c] != 0 { 1int } else { 0int })
        } else {
            0int
        },
    decreases n,
{
    if n > 0 {
        lemma_occupied_set(g, r, c, v, (n - 1) as nat);
        let rr = (n - 1) / 9;
        let cc = (n - 1) % 9;
        if n - 1 != r * 9 + c {
            assert(rr != r || cc != c);
            assert(grid_set(g, r, c, v)[rr][cc] == g[rr][cc]);
        } else {
            assert(rr == r && cc == c);
        }
    }
}

/// A capture takes one man off the grid; a quiet move takes none.
pub proof fn lemma_men_after_move(g: Seq<Seq<i8>>, p: i8, m: Move)
    requires
        grid_shape(g),
        valid_player(p),
        is_capture(g, p, m) || is_step(g, p, m),
    ensures
        is_jump(m) == is_capture(g, p, m),
        men_on(grid_after(g, p, m)) == if is_jump(m) {
            men_on(g) - 1
        } else {
            men_on(g) as int
        },
{
    let g1 = grid_set(g, m.0 as int, m.1 as int, 0);
    let g2 = grid_set(g1, m.2 as int, m.3 as int, p);
    lemma_occupied_set(g, m.0 as int, m.1 as int, 0, 81);
    lemma_occupied_set(g1, m.2 as int, m.3 as int, p, 81);
    assert(g1[m.2 as int][m.3 as int] == 0);
    if is_jump(m) {
        let mr = (m.0 + m.2) / 2;
        let mc = (m.1 + m.3) / 2;
        lemma_occupied_set(g2, mr, mc, 0, 81);
        assert(g2[mr][mc] == -p);
    }
}

/// Position of a move in generation order: men are visited row by row and
/// column by column, and for each man the straight step comes first, then the
/// move to the left, then the move to the right.
pub open spec fn move_rank(m: Move) -> int {
    (m.0 * 9 + m.1) * 3 + if m.3 < m.1 {
        1int
    } else if m.3 > m.1 {
        2int
    } else {
        0int
    }
}

/// The moves of `s` stand in generation order, each once.
pub open spec fn in_generation_order(s: Seq<Move>) -> bool {
    forall|a: int, b: int| 0 <= a < b < s.len() ==> move_rank(s[a]) < move_rank(s[b])
}

/// A list in generation order is fixed by the moves it holds.
pub proof fn lemma_generation_order_unique(s: Seq<Move>, t: Seq<Move>)
    requires
        in_generation_order(s),
        in_generation_order(t),
        forall|m: Move| s.contains(m) <==> t.contains(m),
    ensures
        s == t,
    decreases s.len(),
{
    if s.len() == 0 {
        if t.len() > 0 {
            assert(t.contains(t[0]));
            assert(s.contains(t[0]));
        }
        assert(s =~= t);
    } else {
        let ls = s.last();
        assert(s.contains(ls));
        assert(t.contains(ls));
        let k = choose|k: int| 0 <= k < t.len() && t[k] == ls;
        if k < t.len() - 1 {
            let lt = t.last();
            assert(t.contains(lt));
            assert(s.contains(lt));
            let q = choose|q: int| 0 <= q < s.len() && s[q] == lt;
            assert(move_rank(t[k]) < move_rank(lt));
            assert(q < s.len() - 1 ==> move_rank(s[q]) < move_rank(ls));
            assert(false);
        }
        let s1 = s.drop_last();
        let t1 = t.drop_last();
        assert forall|m: Move| s1.contains(m) <==> t1.contains(m) by {
            if s1.contains(m) {
                let a = choose|a: int| 0 <= a < s1.len() && s1[a] == m;
                assert(s[a] == m);
                assert(s.contains(m));
                assert(move_rank(m) < move_rank(ls));
                let b = choose|b: int| 0 <= b < t.len() && t[b] == m;
                assert(b != t.len() - 1);
                assert(t1[b] == m);
            }
            if t1.contains(m) {
                let b = choose|b: int| 0 <= b < t1.len() && t1[b] == m;
                assert(t[b] == m);
                assert(t.contains(m));
                assert(move_rank(m) < move_rank(ls));
                let a = choose|a: int| 0 <= a < s.len() && s[a] == m;
                assert(a != s.len() - 1);
                assert(s1[a] == m);
            }
        }
        lemma_generation_order_unique(s1, t1);
        assert(s =~= s1.push(ls));
        assert(t =~= t1.push(ls));
    }
}

/// `m` is the only legal move of side `p`.
pub open spec fn sole_legal_move(g: Seq<Seq<i8>>, p: i8, m: Move) -> bool {
    is_legal(g, p, m) && forall|other: Move| is_legal(g, p, other) ==> other == m
}

/// Side `p` has exactly one legal move.
pub open spec fn has_sole_legal_move(g: Seq<Seq<i8>>, p: i8) -> bool {
    exists|m: Move| sole_legal_move(g, p, m)
}

/// A side has exactly one legal move only where the list of its legal moves
/// has exactly one entry.
pub proof fn lemma_sole_move_is_the_list(g: Seq<Seq<i8>>, p: i8, moves: Seq<Move>)
    requires
        forall|m: Move| moves.contains(m) <==> is_legal(g, p, m),
        in_generation_order(moves),
    ensures
        has_sole_legal_move(g, p) <==> moves.len() == 1,
{
    if has_sole_legal_move(g, p) {
        let m = choose|m: Move| sole_legal_move(g, p, m);
        assert(moves.contains(m));
        if moves.len() >= 2 {
            assert(moves.contains(moves[0]));
            assert(moves.contains(moves[1]));
            assert(move_rank(moves[0]) < move_rank(moves[1]));
        }
    }
    if moves.len() == 1 {
        let only = moves[0];
        assert(moves.contains(only));
        assert forall|other: Move| is_legal(g, p, other) implies other == only by {
            assert(moves.contains(other));
        }
        assert(sole_legal_move(g, p, only));
    }
}

/// The captures open to `player`, in generation order.
pub fn get_possible_captures(board: &Board, player: i8) -> (captures: Vec<Move>)
    requires
        valid_player(player),
    ensures
        forall|m: Move| captures@.contains(m) <==> is_capture(board@, player, m),
        in_generation_order(captures@),
{
    let mut captures: Vec<Move> = Vec::new();
    let mut i: usize = 0;
    while i < 9
        invariant
            i <= 9,
            valid_player(player),
            forall|m: Move|
                captures@.contains(m) <==> (is_capture(board@, player, m) && m.0 * 9 + m.1 < i
                    * 9),
            in_generation_order(captures@),
            forall|a: int| 0 <= a < captures@.len() ==> move_rank(#[trigger] captures@[a]) < 27 * i,
        decreases 9 - i,
    {
        let mut j: usize = 0;
        while j < 9
            invariant
                i < 9,
                j <= 9,
                valid_player(player),
                forall|m: Move|
                    captures@.contains(m) <==> (is_capture(board@, player, m) && m.0 * 9 + m.1 < i
                        * 9 + j),
                in_generation_order(captures@),
                forall|a: int|
                    0 <= a < captures@.len() ==> move_rank(#[trigger] captures@[a]) < 3 * (i * 9
                        + j),
            decreases 9 - j,
        {
            let ghost before = captures@;
            let mut left: bool = false;
            let mut right: bool = false;
            let mut land_row: usize = 0;
            if board.get(i, j) == player && ((player == 1 && i + 2 < 9) || (player != 1 && i
                >= 2)) {
                land_row = if player == 1 { i + 2 } else { i - 2 };
                let enemy_row: usize = if player == 1 { i + 1 } else { i - 1 };
                left = j >= 2 && board.get(enemy_row, j - 1) == -player && board.get(
                    land_row,
                    j - 2,
                ) == 0;
                right = j + 2 < 9 && board.get(enemy_row, j + 1) == -player && board.get(
                    land_row,
                    j + 2,
                ) == 0;
            }
            proof {
                assert(left <==> (j >= 2 && is_capture(
                    board@,
                    player,
                    (i, j, land_row, (j - 2) as usize),
                )));
                assert(right <==> is_capture(board@, player, (i, j, land_row, (j + 2) as usize)));
            }
            if left {
                captures.push((i, j, land_row, j - 2));
            }
            let ghost middle = captures@;
            if right {
                captures.push((i, j, land_row, j + 2));
            }
            proof {
                assert forall|m: Move|
                    captures@.contains(m) <==> (is_capture(board@, player, m) && m.0 * 9 + m.1 < i
                        * 9 + j + 1) by {
                    if left {
                        let left_move = (i, j, land_row, (j - 2) as usize);
                        lemma_seq_contains_after_push(before, left_move, m);
                    }
                    if right {
                        let right_move = (i, j, land_row, (j + 2) as usize);
                        lemma_seq_contains_after_push(middle, right_move, m);
                    }
                    if is_capture(board@, player, m) && m.0 * 9 + m.1 == i * 9 + j {
                        assert(m.0 == i && m.1 == j);
                        assert(m.2 == land_row);
                    }
                }
            }
            j += 1;
        }
        i += 1;
    }
    captures
}

/// The quiet moves open to `player`, in generation order, whether or not a
/// capture exists.
pub fn get_all_possible_moves(board: &Board, player: i8) -> (moves: Vec<Move>)
    requires
        valid_player(player),
    ensures
        forall|m: Move| moves@.contains(m) <==> is_step(board@, player, m),
        in_generation_order(moves@),
{
    let mut moves: Vec<Move> = Vec::new();
    let mut i: usize = 0;
    while i < 9
        invariant
            i <= 9,
            valid_player(player),
            forall|m: Move|
                moves@.contains(m) <==> (is_step(board@, player, m) && m.0 * 9 + m.1 < i * 9),
            in_generation_order(moves@),
            forall|a: int| 0 <= a < moves@.len() ==> move_rank(#[trigger] moves@[a]) < 27 * i,
        decreases 9 - i,
    {
        let mut j: usize = 0;
        while j < 9
            invariant
                i < 9,
                j <= 9,
                valid_player(player),
                forall|m: Move|
                    moves@.contains(m) <==> (is_step(board@, player, m) && m.0 * 9 + m.1 < i * 9
                        + j),
                in_generation_order(moves@),
                forall|a: int|
                    0 <= a < moves@.len() ==> move_rank(#[trigger] moves@[a]) < 3 * (i * 9 + j),
            decreases 9 - j,
        {
            let ghost s0 = moves@;
            let mut ahead: bool = false;
            let mut left: bool = false;
            let mut right: bool = false;
            let mut fwd_row: usize = 0;
            if board.get(i, j) == player {
                if (player == 1 && i + 1 < 9) || (player != 1 && i >= 1) {
                    fwd_row = if player == 1 { i + 1 } else { i - 1 };
                    ahead = board.get(fwd_row, j) == 0;
                }
                left = j >= 1 && board.get(i, j - 1) == 0;
                right = j + 1 < 9 && board.get(i, j + 1) == 0;
            }
            proof {
                assert(ahead <==> (0 <= i + forward(player) < 9 && is_step(
                    board@,
                    player,
                    (i, j, (i + forward(player)) as usize, j),
                )));
                assert(ahead ==> fwd_row == i + forward(player));
                assert(left <==> (j >= 1 && is_step(board@, player, (i, j, i, (j - 1) as usize))));
                assert(right <==> is_step(board@, player, (i, j, i, (j + 1) as usize)));
            }
            if ahead {
                moves.push((i, j, fwd_row, j));
            }
            let ghost s1 = moves@;
            if left {
                moves.push((i, j, i, j - 1));
            }
            let ghost s2 = moves@;
            if right {
                moves.push((i, j, i, j + 1));
            }
            proof {
                assert forall|m: Move|
                    moves@.contains(m) <==> (is_step(board@, player, m) && m.0 * 9 + m.1 < i * 9
                        + j + 1) by {
                    if ahead {
                        lemma_seq_contains_after_push(s0, (i, j, fwd_row, j), m);
                    }
                    if left {
                        lemma_seq_contains_after_push(s1, (i, j, i, (j - 1) as usize), m);
                    }
                    if right {
                        lemma_seq_contains_after_push(s2, (i, j, i, (j + 1) as usize), m);
                    }
                    if is_step(board@, player, m) && m.0 * 9 + m.1 == i * 9 + j {
                        assert(m.0 == i && m.1 == j);
                    }
                }
            }
            j += 1;
        }
        i += 1;
    }
    moves
}

/// The legal moves of `player`, in generation order: every capture where one
/// exists, and nothing else; otherwise every quiet move. The list is empty
/// exactly when the side has no move at all.
pub fn get_valid_moves(board: &Board, player: i8) -> (moves: Vec<Move>)
    requires
        valid_player(player),
    ensures
        forall|m: Move| moves@.contains(m) <==> is_legal(board@, player, m),
        in_generation_order(moves@),
        has_capture(board@, player) ==> forall|i: int|
            0 <= i < moves@.len() ==> is_capture(board@, player, #[trigger] moves@[i]),
        moves@.len() == 0 <==> !has_legal_move(board@, player),
{
    let captures = get_possible_captures(board, player);
    if captures.len() > 0 {
        proof {
            assert(captures@.contains(captures@[0]));
            assert(is_capture(board@, player, captures@[0]));
            assert forall|i: int| 0 <= i < captures@.len() implies is_capture(
                board@,
                player,
                #[trigger] captures@[i],
            ) by {
                assert(captures@.contains(captures@[i]));
            }
            assert(is_legal(board@, player, captures@[0]));
        }
        captures
    } else {
        let moves = get_all_possible_moves(board, player);
        proof {
            assert forall|m: Move| !is_capture(board@, player, m) by {
                if is_capture(board@, player, m) {
                    assert(captures@.contains(m));
                }
            }
            if moves@.len() > 0 {
                assert(moves@.contains(moves@[0]));
                assert(is_legal(board@, player, moves@[0]));
            }
            if has_legal_move(board@, player) {
                let m = choose|m: Move| is_legal(board@, player, m);
                assert(moves@.contains(m));
            }
        }
        moves
    }
}

} // verus!
