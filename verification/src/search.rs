//! The search engine: iterative-deepening negamax with alpha-beta pruning,
//! a transposition table and a repetition detector.
use vstd::prelude::*;
use crate::board::{Board, EngineError, grid_shape, lemma_board_shape, Move, valid_player};
use crate::budget::SearchBudget;
use crate::eval::{
    board_score, DRAW_SCORE, evaluate_board, game_over, is_game_over, leaf_score, MAX_SCORE,
    MIN_SCORE, NO_SCORE, WIN_BY_TRIANGLE,
};
use crate::model::{
    bound_kind, cutoff_line, Deepening, deepening, Found, is_legal_list, Iteration, last_safe,
    lemma_legal_list, lemma_legal_move_is_progress, lemma_pushed_key_occurs, lemma_root_ordered,
    loss_in_sight, node_found, occurrences, Probe, probe_entry, report, Scan, scan_found,
    search_order, selected_index, Setting, shows_loss, shows_win, white_view, win_in_sight,
    win_run_start,
};
use crate::moves::{
    get_valid_moves, grid_after, grid_before, has_legal_move, has_sole_legal_move,
    in_generation_order, is_jump, is_legal, lemma_grid_restored, lemma_men_after_move,
    lemma_sole_move_is_the_list, men_on, move_on_board, sole_legal_move,
};
use crate::ordering::{order_root_moves, promote_hint, RootMoveScores};
use crate::pruning::{full_value, lemma_iterations_are_exact};
use crate::table::{table_after_check, TranspositionTable, TTEntry, TTFlag};
use crate::zobrist::{
    fingerprint, KEY_COUNT, lemma_toggle_twice, move_toggle, seeded_u64_draws, ZOBRIST_SEED,
    ZobristTable,
};

verus! {

/// A search that ran out of budget. It carries no score.
#[derive(Clone, Copy, Debug, PartialEq, Eq, Structural)]
pub struct SearchAborted;

/// Counts how often the fingerprint `key` stands on the path `history`.
pub fn count_repetitions(history: &Vec<u64>, key: u64) -> (n: usize)
    ensures
        n == occurrences(history@, key),
{
    let mut n: usize = 0;
    let mut i: usize = 0;
    while i < history.len()
        invariant
            i <= history@.len(),
            n <= i,
            n == occurrences(history@.take(i as int), key),
        decreases history@.len() - i,
    {
        proof {
            assert(history@.take(i + 1).drop_last() =~= history@.take(i as int));
        }
        if history[i] == key {
            n += 1;
        }
        i += 1;
    }
    proof {
        assert(history@.take(i as int) =~= history@);
    }
    n
}

/// Applies a table entry to the window of a node.
pub fn consult_entry(found: Option<TTEntry>, depth: i32, alpha: i32, beta: i32) -> (probe: Probe)
    ensures
        probe == probe_entry(found, depth, alpha, beta),
{
    match found {
        None => Probe { cutoff: None, alpha, beta, hint: None },
        Some(e) => {
            let mut a = alpha;
            let mut b = beta;
            if e.depth >= depth {
                match e.flag {
                    TTFlag::Exact => {
                        return Probe {
                            cutoff: Some((e.eval, e.best_move)),
                            alpha,
                            beta,
                            hint: None,
                        };
                    },
                    TTFlag::LowerBound => {
                        if e.eval > a {
                            a = e.eval;
                        }
                    },
                    TTFlag::UpperBound => {
                        if e.eval < b {
                            b = e.eval;
                        }
                    },
                }
                if a >= b {
                    return Probe { cutoff: Some((e.eval, None)), alpha: a, beta: b, hint: None };
                }
            }
            Probe { cutoff: None, alpha: a, beta: b, hint: e.best_move }
        },
    }
}

/// Classifies the score of a searched node against its window.
pub fn classify_bound(score: i32, alpha: i32, beta: i32) -> (flag: TTFlag)
    ensures
        flag == bound_kind(score, alpha, beta),
{
    if score <= alpha {
        TTFlag::UpperBound
    } else if score >= beta {
        TTFlag::LowerBound
    } else {
        TTFlag::Exact
    }
}

/// What a background search got done.
#[derive(Clone, Copy, Debug, PartialEq, Eq, Structural)]
pub struct PonderReport {
    /// Number of iterations that ran to their end, which is the depth of the
    /// deepest of them.
    pub completed: i32,
    /// One more iteration was begun and gave up when the budget ran out.
    pub interrupted: bool,
}

/// The engine: the transposition table, the Zobrist keys, and the state of
/// the search in progress.
pub struct FiancoAI {
    pub tt: TranspositionTable,
    pub zobrist_table: ZobristTable,
    pub current_hash_key: u64,
    pub hash_history: Vec<u64>,
    pub ai_player: i8,
    pub root_move_scores: RootMoveScores,
}

impl FiancoAI {
    /// The tables of the engine are well formed.
    pub open spec fn wf(&self) -> bool {
        self.tt.wf() && self.zobrist_table.wf()
    }

    /// The score of a threefold repetition, signed for the side the engine
    /// plays.
    pub open spec fn draw_value(&self) -> int {
        -self.ai_player * DRAW_SCORE
    }

    /// What the table tells the node with fingerprint `key`, whose position
    /// stands `reps` times on the path. The table is asked only where the
    /// position is new to the path.
    pub open spec fn node_probe(
        &self,
        key: u64,
        reps: nat,
        depth: i32,
        alpha: i32,
        beta: i32,
    ) -> Probe {
        if reps == 0 {
            probe_entry(
                if self.tt@.contains_key(key) {
                    Some(self.tt@[key])
                } else {
                    None
                },
                depth,
                alpha,
                beta,
            )
        } else {
            Probe { cutoff: None, alpha, beta, hint: None }
        }
    }

    /// The search left the table and the root scores as they were.
    pub open spec fn same_memory(&self, after: &FiancoAI) -> bool {
        after.tt@ == self.tt@ && after.root_move_scores@ == self.root_move_scores@
    }

    /// What a completed search of one node returns and leaves behind, for
    /// the engine `self` before the search and `after` it. In order: a
    /// position that stands three times on the path is a draw; a node that
    /// the table settles returns the stored score; a node at depth 0, or one
    /// where the game is over, returns the evaluation. None of these touches
    /// the table. Any other node returns a line that starts with a legal
    /// move, and offers its result to the table under the bound kind of its
    /// score; at the root the score of the first move is recorded for the
    /// ordering of the next iteration.
    pub open spec fn node_outcome(
        &self,
        after: &FiancoAI,
        g: Seq<Seq<i8>>,
        depth: i32,
        player: i8,
        alpha: i32,
        beta: i32,
        key: u64,
        is_root: bool,
        score: i32,
        pv: Seq<Move>,
    ) -> bool {
        let reps = occurrences(self.hash_history@, key);
        let probe = self.node_probe(key, reps, depth, alpha, beta);
        &&& MIN_SCORE <= score <= MAX_SCORE
        &&& if reps >= 3 {
            score == self.draw_value() && pv.len() == 0 && self.same_memory(after)
        } else if probe.cutoff is Some {
            score == probe.cutoff.unwrap().0 && pv == cutoff_line(probe.cutoff.unwrap().1)
                && self.same_memory(after)
        } else if depth <= 0 || game_over(g, player) {
            score == leaf_score(g, player) && pv.len() == 0 && self.same_memory(after)
        } else {
            &&& pv.len() >= 1
            &&& is_legal(g, player, pv[0])
            &&& after.tt@.contains_key(key)
            &&& (after.tt@[key] == (TTEntry {
                best_move: Some(pv[0]),
                eval: score,
                depth,
                flag: bound_kind(score, alpha, probe.beta),
            }) || after.tt@[key].depth > depth)
            &&& (is_root ==> after.root_move_scores@ == self.root_move_scores@.insert(pv[0], score))
        }
    }

    /// What stays fixed while this engine searches.
    pub open spec fn setting(&self) -> Setting {
        Setting { keys: self.zobrist_table@, ai_player: self.ai_player }
    }

    /// What a search of one node returns if it runs to completion from the
    /// state of this engine.
    pub open spec fn node_result(
        &self,
        g: Seq<Seq<i8>>,
        key: u64,
        depth: i32,
        player: i8,
        alpha: i32,
        beta: i32,
        is_root: bool,
    ) -> Found {
        node_found(
            self.setting(),
            self.hash_history@,
            self.tt@,
            self.root_move_scores@,
            g,
            key,
            depth,
            player,
            alpha,
            beta,
            is_root,
        )
    }

    /// What the deepening loop of `get_best_move` holds after `n` completed
    /// iterations on the grid `g` with `player` to move, started from the
    /// state of this engine: the fingerprint of `g` has gone on the path,
    /// the root scores have been forgotten, and the table has been checked
    /// against its ceiling.
    pub open spec fn search_after(&self, g: Seq<Seq<i8>>, player: i8, n: nat) -> Deepening {
        let key = fingerprint(self.zobrist_table@, g);
        deepening(
            self.setting(),
            self.hash_history@.push(key),
            table_after_check(self.tt@, self.tt.ceiling),
            Map::<Move, i32>::empty(),
            g,
            key,
            player,
            n,
        )
    }

    /// What a background search on the grid `g` with `player` to move holds
    /// after `n` completed iterations, started from the table of this
    /// engine on an empty path and without root scores.
    pub open spec fn pondered_after(&self, g: Seq<Seq<i8>>, player: i8, n: nat) -> Deepening {
        deepening(
            self.setting(),
            Seq::<u64>::empty(),
            self.tt@,
            Map::<Move, i32>::empty(),
            g,
            fingerprint(self.zobrist_table@, g),
            player,
            n,
        )
    }

    /// `get_best_move` returned `result` and left the root scores of the
    /// engine `after` as `n` completed iterations do. The table may hold more
    /// than they left in it: what an iteration that was cut short had stored
    /// by then stays.
    pub open spec fn reports_after(
        &self,
        after: &FiancoAI,
        g: Seq<Seq<i8>>,
        player: i8,
        n: nat,
        result: Result<(i32, Vec<Move>), EngineError>,
    ) -> bool {
        let d = self.search_after(g, player, n);
        &&& after.root_move_scores@ == d.root_scores
        &&& match report(d.results, player) {
            Some((score, line)) => result matches Ok((s, pv)) && s == score && pv@ == line,
            None => result == Err::<(i32, Vec<Move>), EngineError>(EngineError::NoLegalMove),
        }
    }

    /// `other` differs from `self` at most in the path of fingerprints.
    pub open spec fn same_but_history(&self, other: &FiancoAI) -> bool {
        &&& self.tt == other.tt
        &&& self.zobrist_table == other.zobrist_table
        &&& self.current_hash_key == other.current_hash_key
        &&& self.ai_player == other.ai_player
        &&& self.root_move_scores == other.root_move_scores
    }

    /// A new engine for the side `ai_player`, with an empty transposition
    /// table and the Zobrist keys of the fixed seed.
    pub fn new(ai_player: i8) -> (ai: FiancoAI)
        ensures
            ai.wf(),
            ai.ai_player == ai_player,
            ai.tt@ == Map::<u64, TTEntry>::empty(),
            ai.zobrist_table@ == seeded_u64_draws(
                ZOBRIST_SEED,
                KEY_COUNT as nat,
            ),
            ai.current_hash_key == 0,
            ai.hash_history@ == Seq::<u64>::empty(),
            ai.root_move_scores@ == Map::<Move, i32>::empty(),
    {
        FiancoAI {
            tt: TranspositionTable::new(),
            zobrist_table: ZobristTable::new(),
            current_hash_key: 0,
            hash_history: Vec::new(),
            ai_player,
            root_move_scores: RootMoveScores::new(),
        }
    }

    /// Number of entries in the transposition table.
    pub fn get_tt_size(&self) -> (n: usize)
        ensures
            n == self.tt@.len(),
    {
        self.tt.len()
    }

    /// The fingerprint of `board`, computed from scratch.
    pub fn compute_hash_key(&self, board: &Board) -> (h: u64)
        requires
            self.zobrist_table.wf(),
        ensures
            h == fingerprint(self.zobrist_table@, board@),
    {
        self.zobrist_table.compute_hash_key(board)
    }

    /// Plays `mv` for `player`: updates the grid, toggles the keys of the
    /// move in `hash_key`, and puts the new key on the path. Says whether the
    /// move was a capture.
    pub fn make_move(
        &mut self,
        board: &mut Board,
        player: i8,
        mv: Move,
        hash_key: &mut u64,
    ) -> (captured: bool)
        requires
            old(self).zobrist_table.wf(),
            valid_player(player),
            move_on_board(mv),
        ensures
            captured == is_jump(mv),
            final(board)@ == grid_after(old(board)@, player, mv),
            *final(hash_key) == *old(hash_key) ^ move_toggle(
                old(self).zobrist_table@,
                player,
                mv,
                captured,
            ),
            final(self).hash_history@ == old(self).hash_history@.push(*final(hash_key)),
            final(self).same_but_history(old(self)),
    {
        let (from_row, from_col, to_row, to_col) = mv;
        let k_from = self.zobrist_table.key(from_row, from_col, player);
        let k_to = self.zobrist_table.key(to_row, to_col, player);
        let ghost h0 = *hash_key;
        *hash_key = *hash_key ^ k_from;
        board.set(from_row, from_col, 0);
        *hash_key = *hash_key ^ k_to;
        board.set(to_row, to_col, player);
        let mut captured = false;
        if (from_row >= to_row && from_row - to_row == 2) || (to_row >= from_row && to_row
            - from_row == 2) {
            let captured_row = (from_row + to_row) / 2;
            let captured_col = (from_col + to_col) / 2;
            let k_mid = self.zobrist_table.key(captured_row, captured_col, -player);
            *hash_key = *hash_key ^ k_mid;
            board.set(captured_row, captured_col, 0);
            captured = true;
            assert(((h0 ^ k_from) ^ k_to) ^ k_mid == h0 ^ ((k_from ^ k_to) ^ k_mid))
                by (bit_vector);
        } else {
            assert((h0 ^ k_from) ^ k_to == h0 ^ (k_from ^ k_to)) by (bit_vector);
        }
        self.hash_history.push(*hash_key);
        captured
    }

    /// Takes back the move `mv` of `player`: takes the last key off the path,
    /// restores the grid, and toggles the keys of the move in `hash_key`
    /// again.
    pub fn undo_move(
        &mut self,
        board: &mut Board,
        player: i8,
        mv: Move,
        captured: bool,
        hash_key: &mut u64,
    )
        requires
            old(self).zobrist_table.wf(),
            valid_player(player),
            move_on_board(mv),
        ensures
            final(board)@ == grid_before(old(board)@, player, mv, captured),
            *final(hash_key) == *old(hash_key) ^ move_toggle(
                old(self).zobrist_table@,
                player,
                mv,
                captured,
            ),
            final(self).hash_history@ == if old(self).hash_history@.len() > 0 {
                old(self).hash_history@.drop_last()
            } else {
                old(self).hash_history@
            },
            final(self).same_but_history(old(self)),
    {
        let (from_row, from_col, to_row, to_col) = mv;
        self.hash_history.pop();
        let k_from = self.zobrist_table.key(from_row, from_col, player);
        let k_to = self.zobrist_table.key(to_row, to_col, player);
        let ghost h0 = *hash_key;
        *hash_key = *hash_key ^ k_to;
        board.set(to_row, to_col, 0);
        *hash_key = *hash_key ^ k_from;
        board.set(from_row, from_col, player);
        if captured {
            let captured_row = (from_row + to_row) / 2;
            let captured_col = (from_col + to_col) / 2;
            let k_mid = self.zobrist_table.key(captured_row, captured_col, -player);
            *hash_key = *hash_key ^ k_mid;
            board.set(captured_row, captured_col, -player);
            assert(((h0 ^ k_to) ^ k_from) ^ k_mid == h0 ^ ((k_from ^ k_to) ^ k_mid))
                by (bit_vector);
        } else {
            assert((h0 ^ k_to) ^ k_from == h0 ^ (k_from ^ k_to)) by (bit_vector);
        }
    }

    /// Searches the node `board` with `player` to move, to `depth` plies
    /// within the window (`alpha`, `beta`); a capture does not use up depth.
    /// Returns the score for `player` and the line found, or gives up if the
    /// budget runs out on the way.
    ///
    /// The search gives up exactly when `budget` is spent on entry or is
    /// found spent at this node or at one below it; the budget records that.
    /// Whatever happens, the board, the fingerprint and the path come back
    /// as they went in. A search that completes returns what `node_result`
    /// says, and with it what `node_outcome` says.
    pub fn negamax(
        &mut self,
        board: &mut Board,
        depth: i32,
        player: i8,
        alpha: i32,
        beta: i32,
        hash_key: &mut u64,
        is_root: bool,
        budget: &mut SearchBudget,
    ) -> (result: Result<(i32, Vec<Move>), SearchAborted>)
        requires
            old(self).wf(),
            valid_player(player),
            MIN_SCORE <= alpha <= MAX_SCORE,
            MIN_SCORE <= beta <= MAX_SCORE,
        ensures
            final(board)@ == old(board)@,
            *final(hash_key) == *old(hash_key),
            final(self).hash_history@ == old(self).hash_history@,
            final(self).zobrist_table == old(self).zobrist_table,
            final(self).ai_player == old(self).ai_player,
            final(self).current_hash_key == old(self).current_hash_key,
            final(self).tt.ceiling == old(self).tt.ceiling,
            final(self).wf(),
            !is_root || result is Err ==> final(self).root_move_scores == old(
                self,
            ).root_move_scores,
            final(budget).same_terms(old(budget)),
            result is Err <==> final(budget).spent,
            old(budget).spent || old(budget).max_seconds == 0 ==> result is Err,
            match result {
                Err(_) => true,
                Ok((score, pv)) => (Found {
                    score,
                    line: pv@,
                    table: final(self).tt@,
                    root_scores: final(self).root_move_scores@,
                }) == old(self).node_result(
                    old(board)@,
                    *old(hash_key),
                    depth,
                    player,
                    alpha,
                    beta,
                    is_root,
                ),
            },
            match result {
                Err(_) => true,
                Ok((score, pv)) => old(self).node_outcome(
                    final(self),
                    old(board)@,
                    depth,
                    player,
                    alpha,
                    beta,
                    *old(hash_key),
                    is_root,
                    score,
                    pv@,
                ),
            },
        decreases depth, men_on(old(board)@),
    {
        if budget.exhausted() {
            return Err(SearchAborted);
        }
        let key = *hash_key;
        let ghost g0 = board@;
        let ghost hist0 = self.hash_history@;
        let ghost tt0 = self.tt@;
        let ghost scores0 = self.root_move_scores@;
        let ghost cx = self.setting();
        proof {
            lemma_board_shape(*board);
        }
        let repetitions = count_repetitions(&self.hash_history, key);
        if repetitions >= 3 {
            return Ok((-(self.ai_player as i32) * DRAW_SCORE, Vec::new()));
        }
        let old_alpha = alpha;
        let mut alpha = alpha;
        let mut beta = beta;
        let mut hint: Option<Move> = None;
        if repetitions == 0 {
            let probe = consult_entry(self.tt.probe(key), depth, alpha, beta);
            match probe.cutoff {
                Some((eval, first)) => {
                    let mut pv: Vec<Move> = Vec::new();
                    match first {
                        Some(m) => {
                            pv.push(m);
                        },
                        None => {},
                    }
                    assert(pv@ =~= cutoff_line(first));
                    return Ok((eval, pv));
                },
                None => {},
            }
            alpha = probe.alpha;
            beta = probe.beta;
            hint = probe.hint;
        }
        if depth <= 0 || is_game_over(board, player) {
            let value = evaluate_board(board, player);
            let eval = if player == 1 { -value } else { value };
            return Ok((eval, Vec::new()));
        }
        let mut max_eval: i32 = NO_SCORE;
        let mut best_pv: Vec<Move> = Vec::new();
        let mut moves = get_valid_moves(board, player);
        proof {
            assert forall|i: int| 0 <= i < moves@.len() implies move_on_board(
                #[trigger] moves@[i],
            ) by {
                assert(moves@.contains(moves@[i]));
                assert(is_legal(g0, player, moves@[i]));
            }
            assert(is_legal_list(g0, player, moves@));
            lemma_legal_list(g0, player, moves@);
        }
        let ghost generated = moves@;
        if is_root {
            moves = order_root_moves(&moves, &self.root_move_scores);
            proof {
                lemma_root_ordered(scores0, generated, moves@);
            }
        } else {
            match hint {
                Some(h) => {
                    promote_hint(&mut moves, h);
                },
                None => {},
            }
        }
        let ghost alpha_in = alpha;
        let ghost goal = scan_found(
            cx,
            hist0,
            scores0,
            g0,
            key,
            depth,
            player,
            beta,
            moves@,
            0,
            Scan { alpha: alpha_in, best: NO_SCORE, line: Seq::empty(), table: tt0 },
        );
        proof {
            assert(moves@ == search_order(g0, player, is_root, scores0, hint));
            assert forall|i: int| 0 <= i < moves@.len() implies is_legal(
                g0,
                player,
                #[trigger] moves@[i],
            ) by {
                assert(moves@.contains(moves@[i]));
            }
            if moves@.len() == 0 {
                assert(!has_legal_move(g0, player));
            }
        }
        let mut idx: usize = 0;
        let mut cut: bool = false;
        while idx < moves.len() && !cut
            invariant
                idx <= moves@.len(),
                moves@.len() > 0,
                cut ==> idx > 0,
                depth >= 1,
                valid_player(player),
                !budget.spent,
                budget.same_terms(old(budget)),
                forall|i: int| 0 <= i < moves@.len() ==> is_legal(g0, player, #[trigger] moves@[i]),
                board@ == g0,
                g0 == old(board)@,
                grid_shape(g0),
                *hash_key == key,
                key == *old(hash_key),
                self.hash_history@ == hist0,
                hist0 == old(self).hash_history@,
                self.zobrist_table == old(self).zobrist_table,
                self.ai_player == old(self).ai_player,
                self.current_hash_key == old(self).current_hash_key,
                self.tt.ceiling == old(self).tt.ceiling,
                self.root_move_scores == old(self).root_move_scores,
                self.wf(),
                cx == self.setting(),
                scores0 == self.root_move_scores@,
                cut ==> (Scan { alpha, best: max_eval, line: best_pv@, table: self.tt@ }) == goal,
                !cut ==> scan_found(
                    cx,
                    hist0,
                    scores0,
                    g0,
                    key,
                    depth,
                    player,
                    beta,
                    moves@,
                    idx as nat,
                    Scan { alpha, best: max_eval, line: best_pv@, table: self.tt@ },
                ) == goal,
                MIN_SCORE <= alpha <= MAX_SCORE,
                MIN_SCORE <= beta <= MAX_SCORE,
                idx == 0 ==> max_eval == NO_SCORE && best_pv@.len() == 0,
                idx > 0 ==> MIN_SCORE <= max_eval <= MAX_SCORE && best_pv@.len() >= 1 && is_legal(
                    g0,
                    player,
                    best_pv@[0],
                ),
            decreases moves@.len() - idx,
        {
            let m = moves[idx];
            let ghost acc = Scan { alpha, best: max_eval, line: best_pv@, table: self.tt@ };
            proof {
                assert(is_legal(g0, player, m));
                lemma_men_after_move(g0, player, m);
                lemma_move_then_undo(self.zobrist_table@, g0, key, hist0, player, m);
                lemma_legal_move_is_progress(g0, player, m, depth);
            }
            let capture = self.make_move(board, player, m, hash_key);
            let new_depth = if capture { depth } else { depth - 1 };
            let result = self.negamax(
                board,
                new_depth,
                -player,
                -beta,
                -alpha,
                hash_key,
                false,
                budget,
            );
            self.undo_move(board, player, m, capture, hash_key);
            match result {
                Ok((child_eval, pv)) => {
                    let eval = -child_eval;
                    let ghost child_line = pv@;
                    if eval > max_eval {
                        max_eval = eval;
                        best_pv = pv;
                        best_pv.insert(0, m);
                        assert(best_pv@ =~= seq![m] + child_line);
                    }
                    if eval > alpha {
                        alpha = eval;
                    }
                    if alpha >= beta {
                        cut = true;
                    }
                    proof {
                        let next = Scan {
                            alpha,
                            best: max_eval,
                            line: best_pv@,
                            table: self.tt@,
                        };
                        let unfolded = scan_found(
                            cx,
                            hist0,
                            scores0,
                            g0,
                            key,
                            depth,
                            player,
                            beta,
                            moves@,
                            idx as nat,
                            acc,
                        );
                        assert(unfolded == goal);
                        if cut {
                            assert(unfolded == next);
                        } else {
                            assert(unfolded == scan_found(
                                cx,
                                hist0,
                                scores0,
                                g0,
                                key,
                                depth,
                                player,
                                beta,
                                moves@,
                                (idx + 1) as nat,
                                next,
                            ));
                        }
                    }
                },
                Err(e) => {
                    return Err(e);
                },
            }
            idx += 1;
        }
        let flag = classify_bound(max_eval, old_alpha, beta);
        let entry = TTEntry { best_move: Some(best_pv[0]), eval: max_eval, depth, flag };
        self.tt.store(key, entry);
        if is_root {
            self.root_move_scores.record(best_pv[0], max_eval);
        }
        Ok((max_eval, best_pv))
    }

    /// Finds the move to play for `player` on `board`: deepens the search
    /// ply by ply up to `max_depth` while `max_time` seconds have not passed,
    /// and reports the score of the deepest completed iteration, from
    /// white's point of view, with the line of the iteration that
    /// `selected_index` picks.
    ///
    /// A side that is neither -1 nor 1 is refused. Where the side has exactly
    /// one legal move, that move comes back at once with
    /// `SINGLE_MOVE_SCORE`, and the engine is left untouched. In every other
    /// case the fingerprint of the position goes on the path and stays
    /// there. No move is reported where the game is over, where the position
    /// stood on the path twice before, or where no iteration completed.
    ///
    /// How many iterations complete is for the clock to say. For the number
    /// that did, the result and what the engine remembers afterwards are what
    /// `reports_after` says.
    pub fn get_best_move(
        &mut self,
        board: &Board,
        player: i8,
        max_depth: i32,
        max_time: u64,
    ) -> (result: Result<(i32, Vec<Move>), EngineError>)
        requires
            old(self).wf(),
        ensures
            final(self).wf(),
            final(self).zobrist_table == old(self).zobrist_table,
            final(self).ai_player == old(self).ai_player,
            final(self).tt.ceiling == old(self).tt.ceiling,
            !valid_player(player) ==> result == Err::<(i32, Vec<Move>), EngineError>(
                EngineError::InvalidSide,
            ) && *final(self) == *old(self),
            valid_player(player) && has_sole_legal_move(board@, player) ==> *final(self) == *old(
                self,
            ) && (result matches Ok((score, pv)) && score == SINGLE_MOVE_SCORE && pv@.len() == 1
                && sole_legal_move(board@, player, pv@[0])),
            valid_player(player) && !has_sole_legal_move(board@, player) ==> {
                &&& final(self).current_hash_key == fingerprint(old(self).zobrist_table@, board@)
                &&& final(self).hash_history@ == old(self).hash_history@.push(
                    final(self).current_hash_key,
                )
                &&& match result {
                    Ok((score, pv)) => {
                        &&& MIN_SCORE <= score <= MAX_SCORE
                        &&& pv@.len() >= 1
                        &&& is_legal(board@, player, pv@[0])
                        &&& !game_over(board@, player)
                        &&& max_depth >= 1
                        &&& max_time > 0
                        &&& occurrences(old(self).hash_history@, final(self).current_hash_key) < 2
                    },
                    Err(e) => e == EngineError::NoLegalMove,
                }
                &&& exists|n: nat|
                    (n == 0 || n <= max_depth) && #[trigger] old(self).reports_after(
                        final(self),
                        board@,
                        player,
                        n,
                        result,
                    )
            },
    {
        if !(player == 1 || player == -1) {
            return Err(EngineError::InvalidSide);
        }
        let mut board_state: Board = *board;
        let ghost g = board@;
        let valid_moves = get_valid_moves(&board_state, player);
        if valid_moves.len() == 1 {
            let only = valid_moves[0];
            let mut line: Vec<Move> = Vec::new();
            line.push(only);
            proof {
                assert(valid_moves@.contains(only));
                assert forall|other: Move| is_legal(g, player, other) implies other == only by {
                    assert(valid_moves@.contains(other));
                }
                assert(sole_legal_move(g, player, only));
            }
            return Ok((SINGLE_MOVE_SCORE, line));
        }
        proof {
            lemma_sole_move_is_the_list(g, player, valid_moves@);
        }
        self.current_hash_key = self.compute_hash_key(&board_state);
        self.hash_history.push(self.current_hash_key);
        self.root_move_scores.clear();
        self.tt.clear_if_full();
        let ghost root_key = self.current_hash_key;
        let ghost path = self.hash_history@;
        proof {
            lemma_pushed_key_occurs(old(self).hash_history@, root_key);
        }
        let mut budget = SearchBudget::start(max_time);
        let mut best_score: i32 = 505;
        let mut depth_results: Vec<DepthResult> = Vec::new();
        let mut depth: i32 = 1;
        let mut stop: bool = false;
        let ghost mut done: nat = 0;
        proof {
            assert(iterations_of(depth_results@) =~= Seq::<Iteration>::empty());
        }
        while depth <= max_depth && !stop
            invariant
                1 <= depth,
                done == depth_results@.len(),
                done == 0 || done <= max_depth,
                !stop ==> depth == done + 1,
                done > 0 ==> best_score == depth_results@[done - 1].score,
                iterations_of(depth_results@) == old(self).search_after(g, player, done).results,
                !stop ==> self.tt@ == old(self).search_after(g, player, done).table,
                self.root_move_scores@ == old(self).search_after(g, player, done).root_scores,
                root_key == fingerprint(old(self).zobrist_table@, g),
                valid_player(player),
                board_state@ == g,
                self.wf(),
                self.zobrist_table == old(self).zobrist_table,
                self.ai_player == old(self).ai_player,
                self.tt.ceiling == old(self).tt.ceiling,
                self.current_hash_key == root_key,
                self.hash_history@ == path,
                path == old(self).hash_history@.push(root_key),
                occurrences(path, root_key) == occurrences(old(self).hash_history@, root_key) + 1,
                budget.max_seconds == max_time,
                depth_results@.len() > 0 ==> max_time > 0 && max_depth >= 1,
                MIN_SCORE <= best_score <= MAX_SCORE,
                forall|i: int|
                    0 <= i < depth_results@.len() ==> (#[trigger] depth_results@[i]).pv@.len() > 0
                        ==> {
                        &&& is_legal(g, player, depth_results@[i].pv@[0])
                        &&& !game_over(g, player)
                        &&& occurrences(path, root_key) < 3
                    },
            decreases max_depth - depth + if stop { 0int } else { 1int },
        {
            if budget.time_exceeded() {
                stop = true;
            } else {
                let mut hash_key = self.current_hash_key;
                let result = self.negamax(
                    &mut board_state,
                    depth,
                    player,
                    MIN_SCORE,
                    MAX_SCORE,
                    &mut hash_key,
                    true,
                    &mut budget,
                );
                match result {
                    Ok((score, pv_current)) => {
                        best_score = if player == 1 { -score } else { score };
                        let ghost earlier = depth_results@;
                        let ghost line = pv_current@;
                        depth_results.push(
                            DepthResult { depth, score: best_score, pv: pv_current },
                        );
                        proof {
                            assert(iterations_of(depth_results@) =~= iterations_of(earlier).push(
                                Iteration { score: best_score, line },
                            ));
                            done = done + 1;
                        }
                        if depth == max_depth {
                            stop = true;
                        } else {
                            depth += 1;
                        }
                    },
                    Err(_) => {
                        stop = true;
                    },
                }
            }
        }
        let ghost its = iterations_of(depth_results@);
        if depth_results.len() == 0 {
            let result = Err(EngineError::NoLegalMove);
            assert(old(self).reports_after(self, g, player, done, result));
            return result;
        }
        let chosen = choose_principal_variation(&depth_results, player);
        let pv = copy_line(&depth_results[chosen].pv);
        assert(pv@ == depth_results@[chosen as int].pv@);
        proof {
            assert(its[chosen as int] == depth_results@[chosen as int]@);
            assert(its.last() == depth_results@[done - 1]@);
        }
        let result = if pv.len() > 0 {
            Ok((best_score, pv))
        } else {
            Err(EngineError::NoLegalMove)
        };
        assert(old(self).reports_after(self, g, player, done, result));
        result
    }

    /// Searches `board`, with `player` to move, in the background of a game,
    /// to fill the transposition table before the next request: deepens ply
    /// by ply up to `max_depth` until `budget` is spent, which for a budget
    /// with a stop flag includes that the flag is raised. The search runs on
    /// a path and on root scores of its own, and shares only the table and
    /// the keys with the engine: all but the table is left as it was.
    ///
    /// The search reaches `max_depth` exactly when the budget lasts. The
    /// report says how many iterations ran to their end and whether one more
    /// was cut short. Where none was cut short, the table holds what those
    /// iterations leave in it, as `pondered_after` says; what an iteration
    /// that was cut short had stored by then stays in the table.
    pub fn ponder(
        &mut self,
        board: &Board,
        player: i8,
        max_depth: i32,
        budget: &mut SearchBudget,
    ) -> (report: PonderReport)
        requires
            old(self).wf(),
            valid_player(player),
        ensures
            final(self).wf(),
            final(self).zobrist_table == old(self).zobrist_table,
            final(self).ai_player == old(self).ai_player,
            final(self).current_hash_key == old(self).current_hash_key,
            final(self).hash_history == old(self).hash_history,
            final(self).root_move_scores == old(self).root_move_scores,
            final(self).tt.ceiling == old(self).tt.ceiling,
            final(budget).same_terms(old(budget)),
            old(budget).spent ==> final(budget).spent,
            0 <= report.completed,
            report.completed == 0 || report.completed <= max_depth,
            max_depth >= 1 ==> (report.completed == max_depth <==> !final(budget).spent),
            max_depth < 1 ==> final(budget).spent == old(budget).spent,
            report.interrupted ==> report.completed < max_depth,
            !report.interrupted ==> final(self).tt@ == old(self).pondered_after(
                board@,
                player,
                report.completed as nat,
            ).table,
            (max_depth < 1 || old(budget).spent || old(budget).max_seconds == 0)
                ==> report.completed == 0 && !report.interrupted && final(self).tt == old(
                self,
            ).tt,
    {
        let mut kept_history: Vec<u64> = Vec::new();
        let mut kept_scores = RootMoveScores::new();
        core::mem::swap(&mut self.hash_history, &mut kept_history);
        core::mem::swap(&mut self.root_move_scores, &mut kept_scores);
        let kept_key = self.current_hash_key;
        let mut board_state: Board = *board;
        let ghost g = board@;
        self.current_hash_key = self.compute_hash_key(&board_state);
        let ghost own_key = self.current_hash_key;
        let mut depth: i32 = 1;
        let mut completed: i32 = 0;
        let mut interrupted: bool = false;
        let mut stop: bool = false;
        while depth <= max_depth && !stop
            invariant
                1 <= depth,
                0 <= completed,
                completed == 0 || completed <= max_depth,
                max_depth >= 1 ==> depth <= max_depth,
                !stop ==> depth == completed + 1,
                stop ==> (completed == max_depth <==> !budget.spent),
                interrupted ==> stop && completed < max_depth,
                valid_player(player),
                board_state@ == g,
                self.wf(),
                self.zobrist_table == old(self).zobrist_table,
                self.ai_player == old(self).ai_player,
                self.tt.ceiling == old(self).tt.ceiling,
                self.current_hash_key == own_key,
                own_key == fingerprint(old(self).zobrist_table@, g),
                self.hash_history@ == Seq::<u64>::empty(),
                budget.same_terms(old(budget)),
                old(budget).spent ==> budget.spent,
                !interrupted ==> self.tt@ == old(self).pondered_after(
                    g,
                    player,
                    completed as nat,
                ).table,
                !interrupted ==> self.root_move_scores@ == old(self).pondered_after(
                    g,
                    player,
                    completed as nat,
                ).root_scores,
                (old(budget).spent || old(budget).max_seconds == 0) ==> completed == 0
                    && !interrupted && self.tt == old(self).tt,
                max_depth < 1 ==> completed == 0 && !interrupted && self.tt == old(self).tt
                    && budget.spent == old(budget).spent,
            decreases max_depth - depth + if stop { 0int } else { 1int },
        {
            if budget.exhausted() {
                stop = true;
            } else {
                let mut hash_key = self.current_hash_key;
                let result = self.negamax(
                    &mut board_state,
                    depth,
                    player,
                    MIN_SCORE,
                    MAX_SCORE,
                    &mut hash_key,
                    true,
                    budget,
                );
                match result {
                    Ok(_) => {
                        completed = depth;
                        if depth == max_depth {
                            stop = true;
                        } else {
                            depth += 1;
                        }
                    },
                    Err(_) => {
                        interrupted = true;
                        stop = true;
                    },
                }
            }
        }
        core::mem::swap(&mut self.hash_history, &mut kept_history);
        core::mem::swap(&mut self.root_move_scores, &mut kept_scores);
        self.current_hash_key = kept_key;
        PonderReport { completed, interrupted }
    }

    /// The position on which to ponder once the line `line` has been found
    /// for `player` on `board`: the position after the first move of the
    /// line, with its fingerprint put on the path. There is none where the
    /// line is empty or its first move is off the grid, and none where the
    /// side had a single legal move, for which no search was made.
    pub fn reply_position(&mut self, board: &Board, player: i8, line: &Vec<Move>) -> (next: Option<
        Board,
    >)
        requires
            old(self).zobrist_table.wf(),
            valid_player(player),
        ensures
            final(self).same_but_history(old(self)),
            match next {
                Some(b) => {
                    &&& line@.len() > 0
                    &&& move_on_board(line@[0])
                    &&& !has_sole_legal_move(board@, player)
                    &&& b@ == grid_after(board@, player, line@[0])
                    &&& final(self).hash_history@ == old(self).hash_history@.push(
                        old(self).current_hash_key ^ move_toggle(
                            old(self).zobrist_table@,
                            player,
                            line@[0],
                            is_jump(line@[0]),
                        ),
                    )
                },
                None => {
                    &&& final(self).hash_history@ == old(self).hash_history@
                    &&& (line@.len() == 0 || !move_on_board(line@[0]) || has_sole_legal_move(
                        board@,
                        player,
                    ))
                },
            },
    {
        if line.len() == 0 {
            return None;
        }
        let first = line[0];
        if !(first.0 < 9 && first.1 < 9 && first.2 < 9 && first.3 < 9) {
            return None;
        }
        let valid_moves = get_valid_moves(board, player);
        if valid_moves.len() == 1 {
            proof {
                let only = valid_moves@[0];
                assert(valid_moves@.contains(only));
                assert forall|other: Move| is_legal(board@, player, other) implies other
                    == only by {
                    assert(valid_moves@.contains(other));
                }
                assert(sole_legal_move(board@, player, only));
            }
            return None;
        }
        proof {
            lemma_sole_move_is_the_list(board@, player, valid_moves@);
        }
        let mut next: Board = *board;
        let mut next_key = self.current_hash_key;
        self.make_move(&mut next, player, first, &mut next_key);
        Some(next)
    }

    /// The legal moves of `side` on `board`, as `get_valid_moves` gives them.
    /// A side that is neither -1 nor 1 is refused.
    pub fn get_legal_moves(&self, board: &Board, side: i8) -> (result: Result<
        Vec<Move>,
        EngineError,
    >)
        ensures
            !valid_player(side) ==> result == Err::<Vec<Move>, EngineError>(
                EngineError::InvalidSide,
            ),
            valid_player(side) ==> (result matches Ok(moves) && {
                &&& forall|m: Move| moves@.contains(m) <==> is_legal(board@, side, m)
                &&& in_generation_order(moves@)
            }),
    {
        if !(side == 1 || side == -1) {
            return Err(EngineError::InvalidSide);
        }
        Ok(get_valid_moves(board, side))
    }

    /// The score of `board` with `side` to move, as `evaluate_board` gives
    /// it. A side that is neither -1 nor 1 is refused.
    pub fn evaluate_position(&self, board: &Board, side: i8) -> (result: Result<i32, EngineError>)
        ensures
            !valid_player(side) ==> result == Err::<i32, EngineError>(EngineError::InvalidSide),
            valid_player(side) ==> (result matches Ok(score) && score == board_score(
                board@,
                side,
            )),
    {
        if !(side == 1 || side == -1) {
            return Err(EngineError::InvalidSide);
        }
        Ok(evaluate_board(board, side))
    }
}

/// What one completed iteration of the deepening loop found: the depth, the
/// score from white's point of view, and the line.
#[derive(Debug)]
pub struct DepthResult {
    pub depth: i32,
    pub score: i32,
    pub pv: Vec<Move>,
}

impl View for DepthResult {
    type V = Iteration;

    open spec fn view(&self) -> Iteration {
        Iteration { score: self.score, line: self.pv@ }
    }
}

/// The results of the iterations, each as score and line.
pub open spec fn iterations_of(results: Seq<DepthResult>) -> Seq<Iteration> {
    results.map_values(|r: DepthResult| r@)
}

/// The score handed back with the move where the side to move has no choice.
/// Nothing was evaluated to get it.
pub const SINGLE_MOVE_SCORE: i32 = 404;

/// Whether `score` shows the mover `player` losing.
pub fn is_loss_score(player: i8, score: i32) -> (loss: bool)
    ensures
        loss == shows_loss(player, score),
{
    if player == 1 {
        score >= WIN_BY_TRIANGLE
    } else {
        score <= -WIN_BY_TRIANGLE
    }
}

/// Whether `score` shows the mover `player` winning outright.
pub fn is_win_score(player: i8, score: i32) -> (win: bool)
    ensures
        win == shows_win(player, score),
{
    if player == 1 {
        score == MIN_SCORE
    } else {
        score == MAX_SCORE
    }
}

/// Picks the iteration whose line is reported.
pub fn choose_principal_variation(results: &Vec<DepthResult>, player: i8) -> (chosen: usize)
    requires
        results@.len() > 0,
    ensures
        chosen == selected_index(iterations_of(results@), player),
        chosen < results@.len(),
{
    let n = results.len();
    let ghost its = iterations_of(results@);
    assert(its.len() == n);
    assert forall|j: int| 0 <= j < n implies #[trigger] its[j] == results@[j]@ by {}
    let mut loss: bool = false;
    let mut win: bool = false;
    let mut i: usize = 0;
    while i < n
        invariant
            i <= n,
            n == results@.len(),
            its.len() == n,
            forall|j: int| 0 <= j < n ==> #[trigger] its[j] == results@[j]@,
            loss == exists|j: int| 0 <= j < i && shows_loss(player, #[trigger] its[j].score),
            win == exists|j: int| 0 <= j < i && shows_win(player, #[trigger] its[j].score),
        decreases n - i,
    {
        assert(its[i as int] == results@[i as int]@);
        assert(its[i as int].score == results@[i as int].score);
        let ghost loss_before = loss;
        let ghost win_before = win;
        if is_loss_score(player, results[i].score) {
            loss = true;
        }
        if is_win_score(player, results[i].score) {
            win = true;
        }
        proof {
            if loss_before {
                let j = choose|j: int| 0 <= j < i && shows_loss(player, #[trigger] its[j].score);
                assert(0 <= j < i + 1 && shows_loss(player, its[j].score));
            }
            if win_before {
                let j = choose|j: int| 0 <= j < i && shows_win(player, #[trigger] its[j].score);
                assert(0 <= j < i + 1 && shows_win(player, its[j].score));
            }
        }
        i += 1;
    }
    assert(loss == loss_in_sight(its, player));
    assert(win == win_in_sight(its, player));
    if loss {
        let mut k: usize = n;
        while k > 0 && is_loss_score(player, results[k - 1].score)
            invariant
                k <= n,
                n == results@.len(),
                its.len() == n,
            forall|j: int| 0 <= j < n ==> #[trigger] its[j] == results@[j]@,
                last_safe(its, player, n as nat) == last_safe(its, player, k as nat),
            decreases k,
        {
            assert(its[k - 1] == results@[k - 1]@);
            k -= 1;
        }
        assert(k > 0 ==> its[k - 1] == results@[k - 1]@);
        if k > 0 {
            k - 1
        } else {
            n - 1
        }
    } else if win {
        let mut k: usize = n;
        while k > 0 && is_win_score(player, results[k - 1].score)
            invariant
                k <= n,
                n == results@.len(),
                its.len() == n,
            forall|j: int| 0 <= j < n ==> #[trigger] its[j] == results@[j]@,
                win_run_start(its, player, n as nat) == win_run_start(its, player, k as nat),
            decreases k,
        {
            assert(its[k - 1] == results@[k - 1]@);
            k -= 1;
        }
        assert(k > 0 ==> its[k - 1] == results@[k - 1]@);
        assert(k < n ==> its[k as int] == results@[k as int]@);
        if k == n {
            n - 1
        } else if k == 0 {
            0
        } else if results[k].pv.len() > 0 {
            k
        } else {
            k - 1
        }
    } else {
        n - 1
    }
}

/// Copies a line.
pub fn copy_line(line: &Vec<Move>) -> (copy: Vec<Move>)
    ensures
        copy@ == line@,
{
    let mut out: Vec<Move> = Vec::new();
    let mut i: usize = 0;
    while i < line.len()
        invariant
            i <= line@.len(),
            out@ == line@.take(i as int),
        decreases line@.len() - i,
    {
        out.push(line[i]);
        proof {
            assert(out@ =~= line@.take(i + 1));
        }
        i += 1;
    }
    proof {
        assert(line@.take(i as int) =~= line@);
    }
    out
}

/// The score that `get_best_move` reports after `n` completed iterations is
/// the score of the whole tree to depth `n`, seen from white's side: neither
/// the pruning nor what the table holds changes it.
pub proof fn lemma_reported_score_is_exact(
    engine: FiancoAI,
    g: Seq<Seq<i8>>,
    player: i8,
    n: nat,
)
    requires
        grid_shape(g),
        valid_player(player),
        1 <= n <= i32::MAX,
    ensures
        report(engine.search_after(g, player, n).results, player) matches Some((score, line))
            ==> score == white_view(
            player,
            full_value(
                engine.setting(),
                engine.hash_history@.push(fingerprint(engine.zobrist_table@, g)),
                g,
                fingerprint(engine.zobrist_table@, g),
                n as i32,
                player,
            ) as i32,
        ),
{
    let key = fingerprint(engine.zobrist_table@, g);
    lemma_pushed_key_occurs(engine.hash_history@, key);
    lemma_iterations_are_exact(
        engine.setting(),
        engine.hash_history@.push(key),
        table_after_check(engine.tt@, engine.tt.ceiling),
        Map::<Move, i32>::empty(),
        g,
        key,
        player,
        n,
    );
    let results = engine.search_after(g, player, n).results;
    assert(results.last() == results[n - 1]);
}

/// Playing a legal move and taking it back changes nothing: the grid, the
/// fingerprint and the path of fingerprints are exactly what they were.
pub proof fn lemma_move_then_undo(
    keys: Seq<u64>,
    g: Seq<Seq<i8>>,
    h: u64,
    history: Seq<u64>,
    p: i8,
    m: Move,
)
    requires
        grid_shape(g),
        valid_player(p),
        is_legal(g, p, m),
    ensures
        grid_before(grid_after(g, p, m), p, m, is_jump(m)) == g,
        (h ^ move_toggle(keys, p, m, is_jump(m))) ^ move_toggle(keys, p, m, is_jump(m)) == h,
        history.push(h ^ move_toggle(keys, p, m, is_jump(m))).drop_last() == history,
{
    lemma_grid_restored(g, p, m);
    lemma_toggle_twice(h, move_toggle(keys, p, m, is_jump(m)));
    assert(history.push(h ^ move_toggle(keys, p, m, is_jump(m))).drop_last() =~= history);
}

} // verus!
