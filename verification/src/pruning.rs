//! Soundness of the pruning: on a path that holds the position of every node
//! on it, the search with a window finds what the search of the whole tree
//! finds.
use vstd::prelude::*;
use crate::board::{grid_shape, Move, valid_player};
use crate::eval::{
    DRAW_SCORE, game_over, has_won, leaf_score, lemma_board_score_bounds, MAX_SCORE, MIN_SCORE,
    NO_SCORE,
};
use crate::model::{
    deepening, depth_after, is_legal_list, is_progress, is_root_ordering, legal_list,
    lemma_legal_move_is_progress, lemma_pushed_key_occurs, node_found, occurrences, root_ordered,
    Scan, scan_found, search_order, Setting, white_view,
};
use crate::moves::{
    grid_after, has_legal_move, in_generation_order, is_jump, is_legal, lemma_men_after_move,
    men_on, move_rank,
};
use crate::ordering::root_before;
use crate::table::TTEntry;
use crate::zobrist::move_toggle;

verus! {

/// Two legal moves of one side with the same place in generation order are
/// the same move.
pub proof fn lemma_rank_tells_legal_moves_apart(g: Seq<Seq<i8>>, p: i8, a: Move, b: Move)
    requires
        valid_player(p),
        is_legal(g, p, a),
        is_legal(g, p, b),
        move_rank(a) == move_rank(b),
    ensures
        a == b,
{
    assert(a.0 * 9 + a.1 == b.0 * 9 + b.1);
    assert(a.0 == b.0 && a.1 == b.1);
}

/// The legal moves of side `p` whose place in generation order is below `k`,
/// in that order.
pub open spec fn legal_below(g: Seq<Seq<i8>>, p: i8, k: nat) -> Seq<Move>
    decreases k,
{
    if k == 0 {
        Seq::empty()
    } else {
        let before = legal_below(g, p, (k - 1) as nat);
        if exists|m: Move| is_legal(g, p, m) && move_rank(m) == k - 1 {
            before.push(choose|m: Move| is_legal(g, p, m) && move_rank(m) == k - 1)
        } else {
            before
        }
    }
}

proof fn lemma_legal_below(g: Seq<Seq<i8>>, p: i8, k: nat)
    requires
        valid_player(p),
    ensures
        forall|m: Move|
            legal_below(g, p, k).contains(m) <==> (is_legal(g, p, m) && move_rank(m) < k),
        forall|i: int|
            0 <= i < legal_below(g, p, k).len() ==> move_rank(#[trigger] legal_below(g, p, k)[i])
                < k,
        in_generation_order(legal_below(g, p, k)),
    decreases k,
{
    if k > 0 {
        lemma_legal_below(g, p, (k - 1) as nat);
        let before = legal_below(g, p, (k - 1) as nat);
        let now = legal_below(g, p, k);
        if exists|m: Move| is_legal(g, p, m) && move_rank(m) == k - 1 {
            let w = choose|m: Move| is_legal(g, p, m) && move_rank(m) == k - 1;
            assert(now == before.push(w));
            assert forall|i: int| 0 <= i < now.len() implies move_rank(#[trigger] now[i]) < k by {
                if i < before.len() {
                    assert(now[i] == before[i]);
                    assert(move_rank(before[i]) < k - 1);
                }
            }
            assert forall|m: Move| now.contains(m) <==> (is_legal(g, p, m) && move_rank(m)
                < k) by {
                vstd::seq_lib::lemma_seq_contains_after_push(before, w, m);
                if is_legal(g, p, m) && move_rank(m) == k - 1 {
                    lemma_rank_tells_legal_moves_apart(g, p, m, w);
                }
            }
            assert forall|a: int, b: int| 0 <= a < b < now.len() implies move_rank(now[a])
                < move_rank(now[b]) by {
                assert(now[a] == before[a]);
                assert(move_rank(before[a]) < k - 1);
                if b < before.len() {
                    assert(now[b] == before[b]);
                } else {
                    assert(now[b] == w);
                }
            }
        } else {
            assert(now == before);
            assert forall|i: int| 0 <= i < now.len() implies move_rank(#[trigger] now[i]) < k by {
                assert(move_rank(before[i]) < k - 1);
            }
            assert forall|m: Move| now.contains(m) <==> (is_legal(g, p, m) && move_rank(m)
                < k) by {
                if is_legal(g, p, m) && move_rank(m) == k - 1 {
                    assert(false);
                }
            }
        }
    }
}

/// Every position has its list of legal moves.
pub proof fn lemma_legal_list_exists(g: Seq<Seq<i8>>, p: i8)
    requires
        valid_player(p),
    ensures
        is_legal_list(g, p, legal_list(g, p)),
{
    lemma_legal_below(g, p, 243);
    let s = legal_below(g, p, 243);
    assert forall|m: Move| s.contains(m) <==> is_legal(g, p, m) by {
        if is_legal(g, p, m) {
            assert(move_rank(m) < 243);
        }
    }
    assert(is_legal_list(g, p, s));
}

/// Every list of moves in generation order has its root order.
pub proof fn lemma_root_ordering_exists(scores: Map<Move, i32>, s: Seq<Move>)
    requires
        in_generation_order(s),
    ensures
        is_root_ordering(scores, s, root_ordered(scores, s)),
    decreases s.len(),
{
    if s.len() == 0 {
        assert(is_root_ordering(scores, s, s));
    } else {
        let m = s.last();
        let shorter = s.drop_last();
        lemma_root_ordering_exists(scores, shorter);
        let t = root_ordered(scores, shorter);
        assert forall|i: int| 0 <= i < t.len() implies move_rank(#[trigger] t[i]) != move_rank(
            m,
        ) by {
            assert(t.contains(t[i]));
            assert(shorter.contains(t[i]));
            let j = choose|j: int| 0 <= j < shorter.len() && shorter[j] == t[i];
            assert(s[j] == t[i]);
        }
        let pos = first_not_before(scores, t, m, 0);
        lemma_first_not_before(scores, t, m, 0);
        let u = t.insert(pos, m);
        assert forall|x: Move| u.contains(x) <==> s.contains(x) by {
            if u.contains(x) {
                let a = choose|a: int| 0 <= a < u.len() && u[a] == x;
                if a == pos {
                    assert(s[s.len() - 1] == x);
                } else {
                    let b = if a < pos { a } else { a - 1 };
                    assert(t[b] == x);
                    assert(t.contains(x));
                    assert(shorter.contains(x));
                    let j = choose|j: int| 0 <= j < shorter.len() && shorter[j] == x;
                    assert(s[j] == x);
                }
            }
            if s.contains(x) {
                let j = choose|j: int| 0 <= j < s.len() && s[j] == x;
                if j == s.len() - 1 {
                    assert(u[pos] == x);
                } else {
                    assert(shorter[j] == x);
                    assert(shorter.contains(x));
                    assert(t.contains(x));
                    let b = choose|b: int| 0 <= b < t.len() && t[b] == x;
                    let a = if b < pos { b } else { b + 1 };
                    assert(u[a] == x);
                }
            }
        }
        assert forall|a: int, b: int| 0 <= a < b < u.len() implies root_before(
            scores,
            u[a],
            u[b],
        ) by {
            if a == pos {
                assert(u[b] == t[b - 1]);
                if b - 1 > pos {
                    assert(root_before(scores, t[pos], t[b - 1]));
                }
            } else if b == pos {
                assert(u[a] == t[a]);
            } else {
                let a0 = if a < pos { a } else { a - 1 };
                let b0 = if b < pos { b } else { b - 1 };
                assert(u[a] == t[a0] && u[b] == t[b0]);
                assert(root_before(scores, t[a0], t[b0]));
            }
        }
        assert(is_root_ordering(scores, s, u));
    }
}

/// The first place from `i` on at which `t` holds a move that does not come
/// before `m` at the root; the length of `t` where there is none.
pub open spec fn first_not_before(scores: Map<Move, i32>, t: Seq<Move>, m: Move, i: int) -> int
    decreases t.len() - i,
{
    if i < 0 || i >= t.len() {
        t.len() as int
    } else if !root_before(scores, t[i], m) {
        i
    } else {
        first_not_before(scores, t, m, i + 1)
    }
}

proof fn lemma_first_not_before(scores: Map<Move, i32>, t: Seq<Move>, m: Move, i: int)
    requires
        0 <= i <= t.len(),
        forall|j: int| 0 <= j < t.len() ==> move_rank(#[trigger] t[j]) != move_rank(m),
    ensures
        i <= first_not_before(scores, t, m, i) <= t.len(),
        forall|j: int| i <= j < first_not_before(scores, t, m, i) ==> root_before(scores, t[j], m),
        first_not_before(scores, t, m, i) < t.len() ==> root_before(
            scores,
            m,
            t[first_not_before(scores, t, m, i)],
        ),
    decreases t.len() - i,
{
    if i < t.len() && root_before(scores, t[i], m) {
        lemma_first_not_before(scores, t, m, i + 1);
    }
}

/// The score of the whole tree below a node: the search as `node_found`
/// makes it, without window and without table. `history` is the path of
/// fingerprints down to the node, `g` the grid with `player` to move, and
/// `key` its fingerprint.
pub open spec fn full_value(
    cx: Setting,
    history: Seq<u64>,
    g: Seq<Seq<i8>>,
    key: u64,
    depth: i32,
    player: i8,
) -> int
    decreases depth, men_on(g), 1int, 0int,
{
    if occurrences(history, key) >= 3 {
        -cx.ai_player * DRAW_SCORE
    } else if depth <= 0 || game_over(g, player) {
        leaf_score(g, player)
    } else {
        full_best(cx, history, g, key, depth, player, legal_list(g, player), 0)
    }
}

/// The best that the mover can get from the moves of `moves` from number
/// `idx` on, each answered by the score of the whole tree below it;
/// `NO_SCORE` where no move is left.
pub open spec fn full_best(
    cx: Setting,
    history: Seq<u64>,
    g: Seq<Seq<i8>>,
    key: u64,
    depth: i32,
    player: i8,
    moves: Seq<Move>,
    idx: nat,
) -> int
    decreases depth, men_on(g), 0int, moves.len() - idx,
{
    if idx >= moves.len() {
        NO_SCORE as int
    } else {
        let rest = full_best(cx, history, g, key, depth, player, moves, idx + 1);
        let m = moves[idx as int];
        if !is_progress(g, player, m, depth) {
            rest
        } else {
            let child_key = key ^ move_toggle(cx.keys, player, m, is_jump(m));
            let value = -full_value(
                cx,
                history.push(child_key),
                grid_after(g, player, m),
                child_key,
                depth_after(m, depth),
                (-player) as i8,
            );
            if value > rest {
                value
            } else {
                rest
            }
        }
    }
}

/// What the move `m` is worth to the mover in the whole tree.
pub open spec fn reply_value(
    cx: Setting,
    history: Seq<u64>,
    g: Seq<Seq<i8>>,
    key: u64,
    depth: i32,
    player: i8,
    m: Move,
) -> int {
    let child_key = key ^ move_toggle(cx.keys, player, m, is_jump(m));
    -full_value(
        cx,
        history.push(child_key),
        grid_after(g, player, m),
        child_key,
        depth_after(m, depth),
        (-player) as i8,
    )
}

/// `full_best` is the greatest worth among the moves it ranges over.
proof fn lemma_full_best_is_max(
    cx: Setting,
    history: Seq<u64>,
    g: Seq<Seq<i8>>,
    key: u64,
    depth: i32,
    player: i8,
    moves: Seq<Move>,
    idx: nat,
)
    requires
        idx <= moves.len(),
        forall|i: int| 0 <= i < moves.len() ==> is_progress(g, player, #[trigger] moves[i], depth),
    ensures
        forall|i: int|
            idx <= i < moves.len() ==> reply_value(
                cx,
                history,
                g,
                key,
                depth,
                player,
                #[trigger] moves[i],
            ) <= full_best(cx, history, g, key, depth, player, moves, idx),
        full_best(cx, history, g, key, depth, player, moves, idx) == NO_SCORE || exists|i: int|
            idx <= i < moves.len() && reply_value(
                cx,
                history,
                g,
                key,
                depth,
                player,
                #[trigger] moves[i],
            ) == full_best(cx, history, g, key, depth, player, moves, idx),
        full_best(cx, history, g, key, depth, player, moves, idx) >= NO_SCORE,
    decreases moves.len() - idx,
{
    if idx < moves.len() {
        lemma_full_best_is_max(cx, history, g, key, depth, player, moves, idx + 1);
        let rest = full_best(cx, history, g, key, depth, player, moves, idx + 1);
        let now = full_best(cx, history, g, key, depth, player, moves, idx);
        let m = moves[idx as int];
        assert(is_progress(g, player, m, depth));
        let value = reply_value(cx, history, g, key, depth, player, m);
        assert(now == if value > rest { value } else { rest });
        if now != NO_SCORE {
            if value > rest {
                assert(reply_value(cx, history, g, key, depth, player, moves[idx as int]) == now);
            } else {
                let i = choose|i: int|
                    idx + 1 <= i < moves.len() && reply_value(
                        cx,
                        history,
                        g,
                        key,
                        depth,
                        player,
                        #[trigger] moves[i],
                    ) == rest;
                assert(idx <= i < moves.len());
            }
        }
    }
}

/// The order of the moves does not matter to the best of them.
proof fn lemma_full_best_of_same_moves(
    cx: Setting,
    history: Seq<u64>,
    g: Seq<Seq<i8>>,
    key: u64,
    depth: i32,
    player: i8,
    a: Seq<Move>,
    b: Seq<Move>,
)
    requires
        forall|m: Move| a.contains(m) <==> b.contains(m),
        forall|i: int| 0 <= i < a.len() ==> is_progress(g, player, #[trigger] a[i], depth),
        forall|i: int| 0 <= i < b.len() ==> is_progress(g, player, #[trigger] b[i], depth),
        forall|m: Move|
            a.contains(m) ==> #[trigger] reply_value(cx, history, g, key, depth, player, m)
                > NO_SCORE,
    ensures
        full_best(cx, history, g, key, depth, player, a, 0) == full_best(
            cx,
            history,
            g,
            key,
            depth,
            player,
            b,
            0,
        ),
{
    lemma_full_best_is_max(cx, history, g, key, depth, player, a, 0);
    lemma_full_best_is_max(cx, history, g, key, depth, player, b, 0);
    let ra = full_best(cx, history, g, key, depth, player, a, 0);
    let rb = full_best(cx, history, g, key, depth, player, b, 0);
    if a.len() > 0 {
        assert(a.contains(a[0]));
        assert(b.contains(a[0]));
        let j0 = choose|j: int| 0 <= j < b.len() && b[j] == a[0];
        assert(reply_value(cx, history, g, key, depth, player, b[j0]) <= rb);
        assert(reply_value(cx, history, g, key, depth, player, a[0]) <= ra);
        let i = choose|i: int|
            0 <= i < a.len() && reply_value(cx, history, g, key, depth, player, #[trigger] a[i])
                == ra;
        assert(a.contains(a[i]));
        let j = choose|j: int| 0 <= j < b.len() && b[j] == a[i];
        assert(reply_value(cx, history, g, key, depth, player, b[j]) <= rb);
        let k = choose|k: int|
            0 <= k < b.len() && reply_value(cx, history, g, key, depth, player, #[trigger] b[k])
                == rb;
        assert(b.contains(b[k]));
        let l = choose|l: int| 0 <= l < a.len() && a[l] == b[k];
        assert(reply_value(cx, history, g, key, depth, player, a[l]) <= ra);
    } else {
        if b.len() > 0 {
            assert(b.contains(b[0]));
            assert(a.contains(b[0]));
        }
    }
}

/// The greater of two scores.
pub open spec fn higher(a: int, b: int) -> int {
    if a >= b {
        a
    } else {
        b
    }
}

/// `found` is as good as `value` where it lies inside the window
/// (`alpha`, `beta`), and bounds it on the right side where it does not: a
/// score at or below `alpha` is not below the value, and a score at or above
/// `beta` is not above it.
pub open spec fn sound_within(found: int, value: int, alpha: int, beta: int) -> bool {
    &&& found <= alpha ==> value <= found
    &&& found >= beta ==> value >= found
    &&& alpha < found < beta ==> value == found
}

/// `s` is a score, or `NO_SCORE`.
pub open spec fn score_or_none(s: int) -> bool {
    s == NO_SCORE || MIN_SCORE <= s <= MAX_SCORE
}

/// The search of a node with a window is sound for the score of the whole
/// tree below it, where the position of the node stands on the path (so that
/// the table is not asked).
pub proof fn lemma_node_sound(
    cx: Setting,
    history: Seq<u64>,
    table: Map<u64, TTEntry>,
    root_scores: Map<Move, i32>,
    g: Seq<Seq<i8>>,
    key: u64,
    depth: i32,
    player: i8,
    alpha: i32,
    beta: i32,
    is_root: bool,
)
    requires
        grid_shape(g),
        valid_player(player),
        occurrences(history, key) >= 1,
        MIN_SCORE <= alpha < beta <= MAX_SCORE,
    ensures
        MIN_SCORE <= full_value(cx, history, g, key, depth, player) <= MAX_SCORE,
        MIN_SCORE <= node_found(
            cx,
            history,
            table,
            root_scores,
            g,
            key,
            depth,
            player,
            alpha,
            beta,
            is_root,
        ).score <= MAX_SCORE,
        sound_within(
            node_found(
                cx,
                history,
                table,
                root_scores,
                g,
                key,
                depth,
                player,
                alpha,
                beta,
                is_root,
            ).score as int,
            full_value(cx, history, g, key, depth, player),
            alpha as int,
            beta as int,
        ),
    decreases depth, men_on(g), 1int, 0int,
{
    lemma_board_score_bounds(g, player);
    if occurrences(history, key) >= 3 {
    } else if depth <= 0 || game_over(g, player) {
    } else {
        lemma_legal_list_exists(g, player);
        let listed = legal_list(g, player);
        let moves = search_order(g, player, is_root, root_scores, None);
        if is_root {
            lemma_root_ordering_exists(root_scores, listed);
        }
        assert forall|m: Move| moves.contains(m) <==> is_legal(g, player, m) by {}
        assert forall|i: int| 0 <= i < moves.len() implies is_legal(
            g,
            player,
            #[trigger] moves[i],
        ) by {
            assert(moves.contains(moves[i]));
        }
        assert forall|i: int| 0 <= i < listed.len() implies is_legal(
            g,
            player,
            #[trigger] listed[i],
        ) by {
            assert(listed.contains(listed[i]));
        }
        let w = choose|m: Move| is_legal(g, player, m);
        assert(has_legal_move(g, player));
        assert(moves.contains(w));
        assert(moves.len() > 0);
        let start = Scan { alpha, best: NO_SCORE, line: Seq::empty(), table };
        lemma_scan_sound(
            cx,
            history,
            root_scores,
            g,
            key,
            depth,
            player,
            alpha,
            beta,
            moves,
            0,
            start,
            NO_SCORE as int,
        );
        assert forall|i: int| 0 <= i < moves.len() implies is_progress(
            g,
            player,
            #[trigger] moves[i],
            depth,
        ) by {
            lemma_legal_move_is_progress(g, player, moves[i], depth);
        }
        assert forall|i: int| 0 <= i < listed.len() implies is_progress(
            g,
            player,
            #[trigger] listed[i],
            depth,
        ) by {
            lemma_legal_move_is_progress(g, player, listed[i], depth);
        }
        assert forall|m: Move| moves.contains(m) implies #[trigger] reply_value(
            cx,
            history,
            g,
            key,
            depth,
            player,
            m,
        ) > NO_SCORE by {
            lemma_reply_in_range(cx, history, g, key, depth, player, m);
        }
        lemma_full_best_of_same_moves(cx, history, g, key, depth, player, moves, listed);
    }
}

/// The worth of a legal move is a score.
proof fn lemma_reply_in_range(
    cx: Setting,
    history: Seq<u64>,
    g: Seq<Seq<i8>>,
    key: u64,
    depth: i32,
    player: i8,
    m: Move,
)
    requires
        grid_shape(g),
        valid_player(player),
        is_legal(g, player, m),
        depth >= 1,
    ensures
        MIN_SCORE <= reply_value(cx, history, g, key, depth, player, m) <= MAX_SCORE,
    decreases depth, men_on(g), 0int, 0int,
{
    let child_key = key ^ move_toggle(cx.keys, player, m, is_jump(m));
    lemma_men_after_move(g, player, m);
    lemma_pushed_key_occurs(history, child_key);
    lemma_node_sound(
        cx,
        history.push(child_key),
        Map::empty(),
        Map::empty(),
        grid_after(g, player, m),
        child_key,
        depth_after(m, depth),
        (-player) as i8,
        MIN_SCORE,
        MAX_SCORE,
        false,
    );
}

/// The loop over the moves of a node is sound for the best of the whole
/// trees below the moves. `done` is the best among the moves before number
/// `idx`, whose search has left `acc`.
pub proof fn lemma_scan_sound(
    cx: Setting,
    history: Seq<u64>,
    root_scores: Map<Move, i32>,
    g: Seq<Seq<i8>>,
    key: u64,
    depth: i32,
    player: i8,
    alpha: i32,
    beta: i32,
    moves: Seq<Move>,
    idx: nat,
    acc: Scan,
    done: int,
)
    requires
        grid_shape(g),
        valid_player(player),
        depth >= 1,
        forall|i: int| 0 <= i < moves.len() ==> is_legal(g, player, #[trigger] moves[i]),
        idx <= moves.len(),
        MIN_SCORE <= alpha < beta <= MAX_SCORE,
        acc.alpha == higher(alpha as int, acc.best as int),
        acc.alpha < beta,
        score_or_none(acc.best as int),
        score_or_none(done),
        acc.best <= alpha ==> done <= acc.best,
        acc.best > alpha ==> done == acc.best,
    ensures
        score_or_none(
            scan_found(
                cx,
                history,
                root_scores,
                g,
                key,
                depth,
                player,
                beta,
                moves,
                idx,
                acc,
            ).best as int,
        ),
        idx < moves.len() ==> MIN_SCORE <= scan_found(
            cx,
            history,
            root_scores,
            g,
            key,
            depth,
            player,
            beta,
            moves,
            idx,
            acc,
        ).best,
        score_or_none(full_best(cx, history, g, key, depth, player, moves, idx)),
        idx < moves.len() ==> MIN_SCORE <= full_best(
            cx,
            history,
            g,
            key,
            depth,
            player,
            moves,
            idx,
        ),
        sound_within(
            scan_found(
                cx,
                history,
                root_scores,
                g,
                key,
                depth,
                player,
                beta,
                moves,
                idx,
                acc,
            ).best as int,
            higher(done, full_best(cx, history, g, key, depth, player, moves, idx)),
            alpha as int,
            beta as int,
        ),
    decreases depth, men_on(g), 0int, moves.len() - idx,
{
    if idx < moves.len() {
        let m = moves[idx as int];
        lemma_legal_move_is_progress(g, player, m, depth);
        lemma_men_after_move(g, player, m);
        let child_key = key ^ move_toggle(cx.keys, player, m, is_jump(m));
        lemma_pushed_key_occurs(history, child_key);
        lemma_node_sound(
            cx,
            history.push(child_key),
            acc.table,
            root_scores,
            grid_after(g, player, m),
            child_key,
            depth_after(m, depth),
            (-player) as i8,
            (-beta) as i32,
            (-acc.alpha) as i32,
            false,
        );
        let child = node_found(
            cx,
            history.push(child_key),
            acc.table,
            root_scores,
            grid_after(g, player, m),
            child_key,
            depth_after(m, depth),
            (-player) as i8,
            (-beta) as i32,
            (-acc.alpha) as i32,
            false,
        );
        let eval = (-child.score) as i32;
        let value = reply_value(cx, history, g, key, depth, player, m);
        let next = Scan {
            alpha: if eval > acc.alpha { eval } else { acc.alpha },
            best: if eval > acc.best { eval } else { acc.best },
            line: if eval > acc.best { seq![m] + child.line } else { acc.line },
            table: child.table,
        };
        // the remaining moves are sound in any case, which gives the range of `full_best`
        lemma_rest_in_range(cx, history, g, key, depth, player, moves, idx + 1);
        if next.alpha < beta {
            lemma_scan_sound(
                cx,
                history,
                root_scores,
                g,
                key,
                depth,
                player,
                alpha,
                beta,
                moves,
                idx + 1,
                next,
                higher(done, value),
            );
        }
    }
}

/// The best of the moves that are left is a score, or `NO_SCORE` where none
/// is left.
proof fn lemma_rest_in_range(
    cx: Setting,
    history: Seq<u64>,
    g: Seq<Seq<i8>>,
    key: u64,
    depth: i32,
    player: i8,
    moves: Seq<Move>,
    idx: nat,
)
    requires
        grid_shape(g),
        valid_player(player),
        depth >= 1,
        forall|i: int| 0 <= i < moves.len() ==> is_legal(g, player, #[trigger] moves[i]),
        idx <= moves.len(),
    ensures
        score_or_none(full_best(cx, history, g, key, depth, player, moves, idx)),
        idx < moves.len() ==> MIN_SCORE <= full_best(
            cx,
            history,
            g,
            key,
            depth,
            player,
            moves,
            idx,
        ),
    decreases depth, men_on(g), 0int, moves.len() - idx,
{
    if idx < moves.len() {
        let m = moves[idx as int];
        lemma_legal_move_is_progress(g, player, m, depth);
        lemma_reply_in_range(cx, history, g, key, depth, player, m);
        lemma_rest_in_range(cx, history, g, key, depth, player, moves, idx + 1);
    }
}

/// A move that puts a man of the mover on its goal row wins at once: where
/// such a move is legal, the whole tree scores the extreme for the mover. The
/// position it leads to must not count as a repetition, which it does only
/// where its fingerprint stands on the path twice already.
pub proof fn lemma_winning_move_scores_the_extreme(
    cx: Setting,
    history: Seq<u64>,
    g: Seq<Seq<i8>>,
    key: u64,
    depth: i32,
    player: i8,
    m: Move,
)
    requires
        grid_shape(g),
        valid_player(player),
        occurrences(history, key) < 3,
        depth >= 1,
        !game_over(g, player),
        is_legal(g, player, m),
        has_won(grid_after(g, player, m), player),
        occurrences(history, key ^ move_toggle(cx.keys, player, m, is_jump(m))) < 2,
    ensures
        full_value(cx, history, g, key, depth, player) == MAX_SCORE,
{
    let child_key = key ^ move_toggle(cx.keys, player, m, is_jump(m));
    let after = grid_after(g, player, m);
    lemma_pushed_key_occurs(history, child_key);
    assert(game_over(after, (-player) as i8));
    assert(reply_value(cx, history, g, key, depth, player, m) == MAX_SCORE);
    lemma_legal_list_exists(g, player);
    let listed = legal_list(g, player);
    assert forall|i: int| 0 <= i < listed.len() implies is_legal(
        g,
        player,
        #[trigger] listed[i],
    ) by {
        assert(listed.contains(listed[i]));
    }
    assert forall|i: int| 0 <= i < listed.len() implies is_progress(
        g,
        player,
        #[trigger] listed[i],
        depth,
    ) by {
        lemma_legal_move_is_progress(g, player, listed[i], depth);
    }
    lemma_full_best_is_max(cx, history, g, key, depth, player, listed, 0);
    lemma_rest_in_range(cx, history, g, key, depth, player, listed, 0);
    assert(listed.contains(m));
    let i = choose|i: int| 0 <= i < listed.len() && listed[i] == m;
    assert(reply_value(cx, history, g, key, depth, player, listed[i]) <= full_best(
        cx,
        history,
        g,
        key,
        depth,
        player,
        listed,
        0,
    ));
}

/// Pruning does not change the score: searched with the full window, a node
/// whose position stands on the path scores what the whole tree below it
/// scores, whatever the table and the root scores hold.
pub proof fn lemma_full_window_is_exact(
    cx: Setting,
    history: Seq<u64>,
    table: Map<u64, TTEntry>,
    root_scores: Map<Move, i32>,
    g: Seq<Seq<i8>>,
    key: u64,
    depth: i32,
    player: i8,
    is_root: bool,
)
    requires
        grid_shape(g),
        valid_player(player),
        occurrences(history, key) >= 1,
    ensures
        node_found(
            cx,
            history,
            table,
            root_scores,
            g,
            key,
            depth,
            player,
            MIN_SCORE,
            MAX_SCORE,
            is_root,
        ).score == full_value(cx, history, g, key, depth, player),
{
    lemma_node_sound(
        cx,
        history,
        table,
        root_scores,
        g,
        key,
        depth,
        player,
        MIN_SCORE,
        MAX_SCORE,
        is_root,
    );
}

/// Every iteration of the deepening loop scores what the whole tree to its
/// depth scores, whatever the iterations before it have left in the table.
pub proof fn lemma_iterations_are_exact(
    cx: Setting,
    history: Seq<u64>,
    table: Map<u64, TTEntry>,
    root_scores: Map<Move, i32>,
    g: Seq<Seq<i8>>,
    key: u64,
    player: i8,
    n: nat,
)
    requires
        grid_shape(g),
        valid_player(player),
        occurrences(history, key) >= 1,
        n <= i32::MAX,
    ensures
        deepening(cx, history, table, root_scores, g, key, player, n).results.len() == n,
        forall|i: int|
            0 <= i < n ==> (#[trigger] deepening(
                cx,
                history,
                table,
                root_scores,
                g,
                key,
                player,
                n,
            ).results[i]).score == white_view(
                player,
                full_value(cx, history, g, key, (i + 1) as i32, player) as i32,
            ),
    decreases n,
{
    if n > 0 {
        lemma_iterations_are_exact(cx, history, table, root_scores, g, key, player, (n - 1) as nat);
        let before = deepening(cx, history, table, root_scores, g, key, player, (n - 1) as nat);
        lemma_full_window_is_exact(
            cx,
            history,
            before.table,
            before.root_scores,
            g,
            key,
            n as i32,
            player,
            true,
        );
        lemma_node_sound(
            cx,
            history,
            before.table,
            before.root_scores,
            g,
            key,
            n as i32,
            player,
            MIN_SCORE,
            MAX_SCORE,
            true,
        );
        let now = deepening(cx, history, table, root_scores, g, key, player, n);
        assert forall|i: int| 0 <= i < n implies (#[trigger] now.results[i]).score == white_view(
            player,
            full_value(cx, history, g, key, (i + 1) as i32, player) as i32,
        ) by {
            if i < n - 1 {
                assert(now.results[i] == before.results[i]);
            }
        }
    }
}

} // verus!
