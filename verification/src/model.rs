//! What a search that is not cut short returns: the search written as a
//! function of the position, the window and what the engine remembers.
use vstd::prelude::*;
use crate::board::{grid_shape, Move, valid_player};
use crate::eval::{
    DRAW_SCORE, game_over, leaf_score, MAX_SCORE, MIN_SCORE, NO_SCORE, WIN_BY_TRIANGLE,
};
use crate::moves::{
    grid_after, in_generation_order, is_jump, is_legal, lemma_men_after_move, men_on,
};
use crate::ordering::{in_root_order, root_before, with_hint_first};
use crate::table::{table_after_store, TTEntry, TTFlag};
use crate::zobrist::move_toggle;

verus! {

/// How often `key` occurs in `s`.
pub open spec fn occurrences(s: Seq<u64>, key: u64) -> nat
    decreases s.len(),
{
    if s.len() == 0 {
        0
    } else {
        occurrences(s.drop_last(), key) + if s.last() == key {
            1nat
        } else {
            0nat
        }
    }
}

/// A key that has just been put on the path occurs on it once more than
/// before.
pub proof fn lemma_pushed_key_occurs(s: Seq<u64>, key: u64)
    ensures
        occurrences(s.push(key), key) == occurrences(s, key) + 1,
{
    assert(s.push(key).drop_last() =~= s);
}

/// What a node learns from the transposition table before it searches.
#[derive(Clone, Copy, Debug)]
pub struct Probe {
    /// The node is settled by the table: its score, and the stored best move
    /// where it is reported along with the score.
    pub cutoff: Option<(i32, Option<Move>)>,
    /// Lower end of the window to search with.
    pub alpha: i32,
    /// Upper end of the window to search with.
    pub beta: i32,
    /// Move to try first.
    pub hint: Option<Move>,
}

/// What the entry `found` tells a node that is to be searched to `depth`
/// within (`alpha`, `beta`). An entry from a search at least as deep settles
/// the node if it is exact; otherwise it raises `alpha` or lowers `beta`, and
/// settles the node if the window closes. An entry that does not settle the
/// node still offers its best move as a hint.
pub open spec fn probe_entry(found: Option<TTEntry>, depth: i32, alpha: i32, beta: i32) -> Probe {
    match found {
        None => Probe { cutoff: None, alpha, beta, hint: None },
        Some(e) => {
            if e.depth >= depth && e.flag == TTFlag::Exact {
                Probe { cutoff: Some((e.eval, e.best_move)), alpha, beta, hint: None }
            } else {
                let a = if e.depth >= depth && e.flag == TTFlag::LowerBound && e.eval > alpha {
                    e.eval
                } else {
                    alpha
                };
                let b = if e.depth >= depth && e.flag == TTFlag::UpperBound && e.eval < beta {
                    e.eval
                } else {
                    beta
                };
                if e.depth >= depth && a >= b {
                    Probe { cutoff: Some((e.eval, None)), alpha: a, beta: b, hint: None }
                } else {
                    Probe { cutoff: None, alpha: a, beta: b, hint: e.best_move }
                }
            }
        },
    }
}

/// The line that a settled node reports: the stored move alone, or nothing.
pub open spec fn cutoff_line(first: Option<Move>) -> Seq<Move> {
    match first {
        Some(m) => seq![m],
        None => Seq::<Move>::empty(),
    }
}

/// The bound kind under which a searched node is stored: an upper bound if
/// its score never rose above the lower end of the window it was given, a
/// lower bound if it reached the upper end, exact otherwise.
pub open spec fn bound_kind(score: i32, alpha: i32, beta: i32) -> TTFlag {
    if score <= alpha {
        TTFlag::UpperBound
    } else if score >= beta {
        TTFlag::LowerBound
    } else {
        TTFlag::Exact
    }
}

/// `s` is the list of the legal moves of side `p`, in generation order.
pub open spec fn is_legal_list(g: Seq<Seq<i8>>, p: i8, s: Seq<Move>) -> bool {
    (forall|m: Move| s.contains(m) <==> is_legal(g, p, m)) && in_generation_order(s)
}

/// The legal moves of side `p`, in generation order.
pub open spec fn legal_list(g: Seq<Seq<i8>>, p: i8) -> Seq<Move> {
    choose|s: Seq<Move>| is_legal_list(g, p, s)
}

/// `t` holds the moves of `s`, in the order in which the root searches them.
pub open spec fn is_root_ordering(scores: Map<Move, i32>, s: Seq<Move>, t: Seq<Move>) -> bool {
    &&& t.len() == s.len()
    &&& forall|m: Move| t.contains(m) <==> s.contains(m)
    &&& in_root_order(scores, t)
}

/// The moves of `s` in the order in which the root searches them.
pub open spec fn root_ordered(scores: Map<Move, i32>, s: Seq<Move>) -> Seq<Move> {
    choose|t: Seq<Move>| is_root_ordering(scores, s, t)
}

/// The order in which a node tries its moves: by recorded score at the root,
/// and elsewhere in generation order with the hint of the table in front.
pub open spec fn search_order(
    g: Seq<Seq<i8>>,
    p: i8,
    is_root: bool,
    scores: Map<Move, i32>,
    hint: Option<Move>,
) -> Seq<Move> {
    let moves = legal_list(g, p);
    if is_root {
        root_ordered(scores, moves)
    } else {
        match hint {
            Some(h) => with_hint_first(moves, h),
            None => moves,
        }
    }
}

/// A list that holds exactly the legal moves in generation order is the list
/// of legal moves.
pub proof fn lemma_legal_list(g: Seq<Seq<i8>>, p: i8, s: Seq<Move>)
    requires
        is_legal_list(g, p, s),
    ensures
        legal_list(g, p) == s,
{
    crate::moves::lemma_generation_order_unique(legal_list(g, p), s);
}

/// The root order of a list of moves is fixed by the moves and their scores.
pub proof fn lemma_root_order_unique(scores: Map<Move, i32>, s: Seq<Move>, t: Seq<Move>)
    requires
        in_root_order(scores, s),
        in_root_order(scores, t),
        s.len() == t.len(),
        forall|m: Move| s.contains(m) <==> t.contains(m),
    ensures
        s == t,
    decreases s.len(),
{
    if s.len() == 0 {
        assert(s =~= t);
    } else {
        let ls = s.last();
        assert(s.contains(ls));
        let k = choose|k: int| 0 <= k < t.len() && t[k] == ls;
        if k < t.len() - 1 {
            let lt = t.last();
            assert(t.contains(lt));
            let q = choose|q: int| 0 <= q < s.len() && s[q] == lt;
            assert(root_before(scores, t[k], lt));
            assert(q < s.len() - 1 ==> root_before(scores, s[q], ls));
            assert(false);
        }
        let s1 = s.drop_last();
        let t1 = t.drop_last();
        assert forall|m: Move| s1.contains(m) <==> t1.contains(m) by {
            if s1.contains(m) {
                let a = choose|a: int| 0 <= a < s1.len() && s1[a] == m;
                assert(s[a] == m);
                assert(s.contains(m));
                assert(root_before(scores, s[a], ls));
                let b = choose|b: int| 0 <= b < t.len() && t[b] == m;
                assert(b != t.len() - 1);
                assert(t1[b] == m);
            }
            if t1.contains(m) {
                let b = choose|b: int| 0 <= b < t1.len() && t1[b] == m;
                assert(t[b] == m);
                assert(t.contains(m));
                assert(root_before(scores, t[b], ls));
                let a = choose|a: int| 0 <= a < s.len() && s[a] == m;
                assert(a != s.len() - 1);
                assert(s1[a] == m);
            }
        }
        lemma_root_order_unique(scores, s1, t1);
        assert(s =~= s1.push(ls));
        assert(t =~= t1.push(ls));
    }
}

/// A list that holds the moves of `s` in root order is the root order of `s`.
pub proof fn lemma_root_ordered(scores: Map<Move, i32>, s: Seq<Move>, t: Seq<Move>)
    requires
        is_root_ordering(scores, s, t),
    ensures
        root_ordered(scores, s) == t,
{
    lemma_root_order_unique(scores, root_ordered(scores, s), t);
}

/// What does not change while one position is searched: the Zobrist keys and
/// the side the engine plays.
pub struct Setting {
    pub keys: Seq<u64>,
    pub ai_player: i8,
}

/// What a node returns and leaves behind.
#[verifier::ext_equal]
pub struct Found {
    /// Score for the side to move.
    pub score: i32,
    /// The line of play behind the score.
    pub line: Seq<Move>,
    /// The transposition table after the search.
    pub table: Map<u64, TTEntry>,
    /// The root scores after the search.
    pub root_scores: Map<Move, i32>,
}

/// Where the loop over the moves of a node stands.
#[verifier::ext_equal]
pub struct Scan {
    /// Lower end of the window, raised by the moves tried so far.
    pub alpha: i32,
    /// Best score of the moves tried so far.
    pub best: i32,
    /// The line behind the best score.
    pub line: Seq<Move>,
    /// The transposition table as the moves tried so far have left it.
    pub table: Map<u64, TTEntry>,
}

/// Trying `m` at a node with `depth` plies left leads to a smaller search:
/// a quiet move uses up a ply, and a capture takes a man off the grid. Every
/// legal move does.
pub open spec fn is_progress(g: Seq<Seq<i8>>, p: i8, m: Move, depth: i32) -> bool {
    depth >= 1 && (is_jump(m) ==> men_on(grid_after(g, p, m)) < men_on(g))
}

/// Every legal move at a node with depth left leads to a smaller search.
pub proof fn lemma_legal_move_is_progress(g: Seq<Seq<i8>>, p: i8, m: Move, depth: i32)
    requires
        grid_shape(g),
        valid_player(p),
        is_legal(g, p, m),
        depth >= 1,
    ensures
        is_progress(g, p, m, depth),
{
    lemma_men_after_move(g, p, m);
}

/// The depth left after `m`: a capture does not use any.
pub open spec fn depth_after(m: Move, depth: i32) -> i32 {
    if is_jump(m) {
        depth
    } else {
        (depth - 1) as i32
    }
}

/// The entry of the table for `key`, if there is one.
pub open spec fn lookup(table: Map<u64, TTEntry>, key: u64) -> Option<TTEntry> {
    if table.contains_key(key) {
        Some(table[key])
    } else {
        None
    }
}

/// The result of searching one node to completion.
///
/// `history` is the path of fingerprints down to this node, `table` and
/// `root_scores` what the engine remembers on entry, `g` the grid with
/// `player` to move, `key` its fingerprint, and (`alpha`, `beta`) the
/// window.
///
/// A position that stands three times on the path is a draw. A position new
/// to the path asks the table, which may settle the node or narrow the
/// window. At depth 0 and where the game is over the node is evaluated.
/// Otherwise its moves are tried in search order, and the best score is
/// offered to the table under the bound kind it has against the window the
/// node was given; the root records it for its first move as well.
pub open spec fn node_found(
    cx: Setting,
    history: Seq<u64>,
    table: Map<u64, TTEntry>,
    root_scores: Map<Move, i32>,
    g: Seq<Seq<i8>>,
    key: u64,
    depth: i32,
    player: i8,
    alpha: i32,
    beta: i32,
    is_root: bool,
) -> Found
    decreases depth, men_on(g), 1int, 0int,
{
    let reps = occurrences(history, key);
    let probe = if reps == 0 {
        probe_entry(lookup(table, key), depth, alpha, beta)
    } else {
        Probe { cutoff: None, alpha, beta, hint: None }
    };
    if reps >= 3 {
        Found {
            score: (-cx.ai_player * DRAW_SCORE) as i32,
            line: Seq::empty(),
            table,
            root_scores,
        }
    } else if probe.cutoff is Some {
        Found {
            score: probe.cutoff.unwrap().0,
            line: cutoff_line(probe.cutoff.unwrap().1),
            table,
            root_scores,
        }
    } else if depth <= 0 || game_over(g, player) {
        Found { score: leaf_score(g, player) as i32, line: Seq::empty(), table, root_scores }
    } else {
        let moves = search_order(g, player, is_root, root_scores, probe.hint);
        let start = Scan { alpha: probe.alpha, best: NO_SCORE, line: Seq::empty(), table };
        let scan = scan_found(
            cx,
            history,
            root_scores,
            g,
            key,
            depth,
            player,
            probe.beta,
            moves,
            0,
            start,
        );
        let entry = TTEntry {
            best_move: if scan.line.len() > 0 {
                Some(scan.line[0])
            } else {
                None
            },
            eval: scan.best,
            depth,
            flag: bound_kind(scan.best, alpha, probe.beta),
        };
        Found {
            score: scan.best,
            line: scan.line,
            table: table_after_store(scan.table, key, entry),
            root_scores: if is_root && scan.line.len() > 0 {
                root_scores.insert(scan.line[0], scan.best)
            } else {
                root_scores
            },
        }
    }
}

/// A position that stands on the path for the third time is a draw: the node
/// returns the draw score with an empty line and leaves the table and the
/// root scores alone, whatever the position is worth otherwise.
pub proof fn lemma_third_occurrence_is_a_draw(
    cx: Setting,
    history: Seq<u64>,
    table: Map<u64, TTEntry>,
    root_scores: Map<Move, i32>,
    g: Seq<Seq<i8>>,
    key: u64,
    depth: i32,
    player: i8,
    alpha: i32,
    beta: i32,
    is_root: bool,
)
    requires
        occurrences(history, key) >= 3,
    ensures
        node_found(
            cx,
            history,
            table,
            root_scores,
            g,
            key,
            depth,
            player,
            alpha,
            beta,
            is_root,
        ) == (Found {
            score: (-cx.ai_player * DRAW_SCORE) as i32,
            line: Seq::empty(),
            table,
            root_scores,
        }),
{
}

/// The loop over the moves of a node, from move number `idx` on, where the
/// moves before it have left `acc`.
///
/// Each move is played, the position after it is searched for the other side
/// with the window turned round, and the move is taken back. A score above
/// the best so far becomes the best, with the move in front of the line
/// behind it; a score above `alpha` raises `alpha`. Once `alpha` has reached
/// `beta` the remaining moves are left out.
pub open spec fn scan_found(
    cx: Setting,
    history: Seq<u64>,
    root_scores: Map<Move, i32>,
    g: Seq<Seq<i8>>,
    key: u64,
    depth: i32,
    player: i8,
    beta: i32,
    moves: Seq<Move>,
    idx: nat,
    acc: Scan,
) -> Scan
    decreases depth, men_on(g), 0int, moves.len() - idx,
{
    if idx >= moves.len() {
        acc
    } else if !is_progress(g, player, moves[idx as int], depth) {
        acc
    } else {
        let m = moves[idx as int];
        let child_key = key ^ move_toggle(cx.keys, player, m, is_jump(m));
        let child = node_found(
            cx,
            history.push(child_key),
            acc.table,
            root_scores,
            grid_after(g, player, m),
            child_key,
            depth_after(m, depth),
            (-player) as i8,
            (-beta) as i32,
            (-acc.alpha) as i32,
            false,
        );
        let eval = (-child.score) as i32;
        let next = Scan {
            alpha: if eval > acc.alpha {
                eval
            } else {
                acc.alpha
            },
            best: if eval > acc.best {
                eval
            } else {
                acc.best
            },
            line: if eval > acc.best {
                seq![m] + child.line
            } else {
                acc.line
            },
            table: child.table,
        };
        if next.alpha >= beta {
            next
        } else {
            scan_found(
                cx,
                history,
                root_scores,
                g,
                key,
                depth,
                player,
                beta,
                moves,
                idx + 1,
                next,
            )
        }
    }
}

/// What one completed iteration of the deepening loop found: the score from
/// white's point of view, and the line.
pub struct Iteration {
    pub score: i32,
    pub line: Seq<Move>,
}

/// The score `score` of the mover `player`, turned to white's point of view.
pub open spec fn white_view(player: i8, score: i32) -> int {
    if player == 1 {
        -score
    } else {
        score as int
    }
}

/// The score `score`, given from white's point of view, says that the mover
/// `player` is losing to a breakthrough or worse.
pub open spec fn shows_loss(player: i8, score: i32) -> bool {
    if player == 1 {
        score >= WIN_BY_TRIANGLE
    } else {
        -score >= WIN_BY_TRIANGLE
    }
}

/// The score `score`, given from white's point of view, says that the mover
/// `player` wins outright.
pub open spec fn shows_win(player: i8, score: i32) -> bool {
    if player == 1 {
        score == MIN_SCORE
    } else {
        score == MAX_SCORE
    }
}

/// Some iteration saw the mover losing.
pub open spec fn loss_in_sight(results: Seq<Iteration>, player: i8) -> bool {
    exists|i: int| 0 <= i < results.len() && shows_loss(player, #[trigger] results[i].score)
}

/// Some iteration saw the mover winning outright.
pub open spec fn win_in_sight(results: Seq<Iteration>, player: i8) -> bool {
    exists|i: int| 0 <= i < results.len() && shows_win(player, #[trigger] results[i].score)
}

/// Scanning the first `n` results from the deepest back: the first one met
/// that does not show the mover losing, or -1 where all of them do.
pub open spec fn last_safe(results: Seq<Iteration>, player: i8, n: nat) -> int
    decreases n,
{
    if n == 0 {
        -1
    } else if !shows_loss(player, results[n - 1].score) {
        n - 1
    } else {
        last_safe(results, player, (n - 1) as nat)
    }
}

/// Scanning the first `n` results from the deepest back: where the unbroken
/// run of outright wins ends, as the index of the shallowest result in it;
/// `n` where the deepest result is no win.
pub open spec fn win_run_start(results: Seq<Iteration>, player: i8, n: nat) -> nat
    decreases n,
{
    if n == 0 {
        0
    } else if shows_win(player, results[n - 1].score) {
        win_run_start(results, player, (n - 1) as nat)
    } else {
        n
    }
}

/// The iteration whose line is reported, for a non-empty list of results in
/// order of depth. The results are scanned from the deepest back.
///
/// Where some iteration saw the mover losing, the first result met that does
/// not is taken, and the deepest one where every result shows the loss.
/// Otherwise, where some iteration saw an outright win, the scan follows the
/// wins back from the deepest result: it takes the last win it meets before
/// a result that contradicts the win (the contradicting result itself where
/// that win has no line), the shallowest result where all are wins, and the
/// deepest where the deepest is no win. In every other case the deepest
/// result is taken.
pub open spec fn selected_index(results: Seq<Iteration>, player: i8) -> int {
    let n = results.len();
    if loss_in_sight(results, player) {
        let safe = last_safe(results, player, n);
        if safe >= 0 {
            safe
        } else {
            n - 1
        }
    } else if win_in_sight(results, player) {
        let k = win_run_start(results, player, n);
        if k == n {
            n - 1
        } else if k == 0 {
            0
        } else if results[k as int].line.len() > 0 {
            k as int
        } else {
            k - 1
        }
    } else {
        n - 1
    }
}

/// What the deepening loop holds after `n` iterations.
#[verifier::ext_equal]
pub struct Deepening {
    /// The results of the iterations, in order of depth.
    pub results: Seq<Iteration>,
    /// The transposition table after the last iteration.
    pub table: Map<u64, TTEntry>,
    /// The root scores after the last iteration.
    pub root_scores: Map<Move, i32>,
}

/// The deepening loop after `n` completed iterations: iteration `d`
/// searches the root to depth `d` with the full window, on what iteration
/// `d - 1` has left in the table and in the root scores.
pub open spec fn deepening(
    cx: Setting,
    history: Seq<u64>,
    table: Map<u64, TTEntry>,
    root_scores: Map<Move, i32>,
    g: Seq<Seq<i8>>,
    key: u64,
    player: i8,
    n: nat,
) -> Deepening
    decreases n,
{
    if n == 0 {
        Deepening { results: Seq::empty(), table, root_scores }
    } else {
        let before = deepening(cx, history, table, root_scores, g, key, player, (n - 1) as nat);
        let found = node_found(
            cx,
            history,
            before.table,
            before.root_scores,
            g,
            key,
            n as i32,
            player,
            MIN_SCORE,
            MAX_SCORE,
            true,
        );
        Deepening {
            results: before.results.push(
                Iteration { score: white_view(player, found.score) as i32, line: found.line },
            ),
            table: found.table,
            root_scores: found.root_scores,
        }
    }
}

/// What is reported after the iterations `results`: the score of the deepest
/// one with the line of the selected one, or nothing where there is no
/// iteration or the selected line is empty.
pub open spec fn report(results: Seq<Iteration>, player: i8) -> Option<(i32, Seq<Move>)> {
    if results.len() == 0 {
        None
    } else {
        let line = results[selected_index(results, player)].line;
        if line.len() > 0 {
            Some((results.last().score, line))
        } else {
            None
        }
    }
}

} // verus!
