//! Move ordering: the scores of the root moves from the last iteration, and
//! the hint that the transposition table gives at inner nodes.
use vstd::prelude::*;
use std::collections::HashMap;
use crate::board::Move;
use crate::moves::{in_generation_order, move_on_board, move_rank};

verus! {

broadcast use vstd::std_specs::hash::group_hash_axioms;

/// A number that stands for a move on the grid; no two such moves share one.
pub open spec fn move_code(m: Move) -> int {
    ((m.0 * 9 + m.1) * 9 + m.2) * 9 + m.3
}

/// Moves on the grid with the same code are the same move.
pub proof fn lemma_move_code_injective(a: Move, b: Move)
    requires
        move_on_board(a),
        move_on_board(b),
        move_code(a) == move_code(b),
    ensures
        a == b,
{
}

/// Whether two moves are the same.
pub fn same_move(a: Move, b: Move) -> (same: bool)
    ensures
        same == (a == b),
{
    a.0 == b.0 && a.1 == b.1 && a.2 == b.2 && a.3 == b.3
}

/// The score each root move had when it was last the best one.
pub struct RootMoveScores {
    pub scores: HashMap<u64, i32>,
}

impl View for RootMoveScores {
    type V = Map<Move, i32>;

    open spec fn view(&self) -> Map<Move, i32> {
        Map::new(
            |m: Move| move_on_board(m) && self.scores@.contains_key(move_code(m) as u64),
            |m: Move| self.scores@[move_code(m) as u64],
        )
    }
}

impl RootMoveScores {
    /// The score by which `m` is ordered: its recorded score, or 0 where
    /// none is recorded.
    pub open spec fn score_of(&self, m: Move) -> int {
        if self@.contains_key(m) {
            self@[m] as int
        } else {
            0
        }
    }

    /// No move has a score.
    pub fn new() -> (s: RootMoveScores)
        ensures
            s@ == Map::<Move, i32>::empty(),
    {
        let s = RootMoveScores { scores: HashMap::new() };
        assert(s@ =~= Map::<Move, i32>::empty());
        s
    }

    /// Forgets every score.
    pub fn clear(&mut self)
        ensures
            final(self)@ == Map::<Move, i32>::empty(),
    {
        self.scores.clear();
        assert(self@ =~= Map::<Move, i32>::empty());
    }

    fn code(m: Move) -> (c: u64)
        requires
            move_on_board(m),
        ensures
            c == move_code(m),
    {
        (((m.0 * 9 + m.1) * 9 + m.2) * 9 + m.3) as u64
    }

    /// The score by which `m` is ordered.
    pub fn get(&self, m: Move) -> (score: i32)
        requires
            move_on_board(m),
        ensures
            score == self.score_of(m),
    {
        match self.scores.get(&Self::code(m)) {
            Some(s) => *s,
            None => 0,
        }
    }

    /// Records `score` for `m`, in place of any earlier score of `m`.
    pub fn record(&mut self, m: Move, score: i32)
        requires
            move_on_board(m),
        ensures
            final(self)@ == old(self)@.insert(m, score),
    {
        self.scores.insert(Self::code(m), score);
        proof {
            assert forall|x: Move| #[trigger] self@.contains_key(x) <==> old(self)@.insert(
                m,
                score,
            ).contains_key(x) by {
                if move_on_board(x) && move_code(x) == move_code(m) {
                    lemma_move_code_injective(x, m);
                }
            }
            assert forall|x: Move| #[trigger] self@.contains_key(x) implies self@[x] == old(
                self,
            )@.insert(m, score)[x] by {
                if move_code(x) == move_code(m) {
                    lemma_move_code_injective(x, m);
                }
            }
            assert(self@ =~= old(self)@.insert(m, score));
        }
    }
}

/// `a` is searched before `b` at the root: it has the higher score, or the
/// same score and the earlier place in generation order.
pub open spec fn root_before(scores: Map<Move, i32>, a: Move, b: Move) -> bool {
    let sa = if scores.contains_key(a) { scores[a] as int } else { 0 };
    let sb = if scores.contains_key(b) { scores[b] as int } else { 0 };
    sa > sb || (sa == sb && move_rank(a) < move_rank(b))
}

/// The moves of `s` stand in the order in which the root searches them.
pub open spec fn in_root_order(scores: Map<Move, i32>, s: Seq<Move>) -> bool {
    forall|a: int, b: int| 0 <= a < b < s.len() ==> root_before(scores, s[a], s[b])
}

/// Orders the root moves by their recorded scores, highest first. Moves with
/// the same score, and so all moves without one, keep the order in which they
/// were generated.
pub fn order_root_moves(moves: &Vec<Move>, scores: &RootMoveScores) -> (ordered: Vec<Move>)
    requires
        in_generation_order(moves@),
        forall|i: int| 0 <= i < moves@.len() ==> move_on_board(#[trigger] moves@[i]),
    ensures
        ordered@.len() == moves@.len(),
        forall|m: Move| ordered@.contains(m) <==> moves@.contains(m),
        in_root_order(scores@, ordered@),
{
    let mut out: Vec<Move> = Vec::new();
    let mut k: usize = 0;
    while k < moves.len()
        invariant
            k <= moves@.len(),
            out@.len() == k,
            in_generation_order(moves@),
            forall|i: int| 0 <= i < moves@.len() ==> move_on_board(#[trigger] moves@[i]),
            forall|m: Move| out@.contains(m) <==> moves@.take(k as int).contains(m),
            in_root_order(scores@, out@),
        decreases moves@.len() - k,
    {
        let m = moves[k];
        let s = scores.get(m);
        let mut pos: usize = 0;
        while pos < out.len()
            invariant
                pos <= out@.len(),
                out@.len() == k,
                k < moves@.len(),
                m == moves@[k as int],
                s == scores.score_of(m),
                forall|i: int| 0 <= i < moves@.len() ==> move_on_board(#[trigger] moves@[i]),
                forall|x: Move| out@.contains(x) <==> moves@.take(k as int).contains(x),
                forall|i: int| 0 <= i < pos ==> scores.score_of(#[trigger] out@[i]) >= s,
            ensures
                pos <= out@.len(),
                forall|i: int| 0 <= i < pos ==> scores.score_of(#[trigger] out@[i]) >= s,
                pos < out@.len() ==> scores.score_of(out@[pos as int]) < s,
            decreases out@.len() - pos,
        {
            proof {
                let seen = moves@.take(k as int);
                assert(out@.contains(out@[pos as int]));
                let t = choose|t: int| 0 <= t < seen.len() && seen[t] == out@[pos as int];
                assert(moves@[t] == out@[pos as int]);
            }
            if scores.get(out[pos]) < s {
                break ;
            }
            pos += 1;
        }
        let ghost before = out@;
        let ghost seen = moves@.take(k as int);
        let ghost taken = moves@.take(k + 1);
        out.insert(pos, m);
        proof {
            assert forall|x: Move| out@.contains(x) <==> taken.contains(x) by {
                if out@.contains(x) {
                    let a = choose|a: int| 0 <= a < out@.len() && out@[a] == x;
                    if a == pos {
                        assert(taken[k as int] == x);
                    } else {
                        let b = if a < pos { a } else { a - 1 };
                        assert(before[b] == x);
                        assert(before.contains(x));
                        let t = choose|t: int| 0 <= t < seen.len() && seen[t] == x;
                        assert(taken[t] == x);
                    }
                }
                if taken.contains(x) {
                    let t = choose|t: int| 0 <= t < taken.len() && taken[t] == x;
                    if t == k {
                        assert(out@[pos as int] == x);
                    } else {
                        assert(seen[t] == x);
                        assert(seen.contains(x));
                        assert(before.contains(x));
                        let b = choose|b: int| 0 <= b < before.len() && before[b] == x;
                        let a = if b < pos { b } else { b + 1 };
                        assert(out@[a] == x);
                    }
                }
            }
            assert forall|a: int, b: int| 0 <= a < b < out@.len() implies root_before(
                scores@,
                out@[a],
                out@[b],
            ) by {
                if a == pos {
                    assert(out@[b] == before[b - 1]);
                    if b - 1 > pos {
                        assert(root_before(scores@, before[pos as int], before[b - 1]));
                    }
                } else if b == pos {
                    assert(out@[a] == before[a]);
                    assert(before.contains(before[a]));
                    let t = choose|t: int| 0 <= t < seen.len() && seen[t] == before[a];
                    assert(move_rank(moves@[t]) < move_rank(moves@[k as int]));
                    assert(scores.score_of(before[a]) >= s);
                } else {
                    let a0 = if a < pos { a } else { a - 1 };
                    let b0 = if b < pos { b } else { b - 1 };
                    assert(out@[a] == before[a0] && out@[b] == before[b0]);
                    assert(root_before(scores@, before[a0], before[b0]));
                }
            }
        }
        k += 1;
    }
    proof {
        assert(moves@.take(k as int) =~= moves@);
    }
    out
}

/// `i` is the first place at which `s` holds `m`.
pub open spec fn is_first_index(s: Seq<Move>, m: Move, i: int) -> bool {
    &&& 0 <= i < s.len()
    &&& s[i] == m
    &&& forall|j: int| 0 <= j < i ==> s[j] != m
}

/// The list `s` with the move `hint` brought to the front by exchanging it
/// with the first move; `s` itself where it does not hold `hint`.
pub open spec fn with_hint_first(s: Seq<Move>, hint: Move) -> Seq<Move> {
    if s.contains(hint) {
        let pos = choose|i: int| is_first_index(s, hint, i);
        s.update(pos, s[0]).update(0, hint)
    } else {
        s
    }
}

/// Brings the remembered best move to the front, if it is among the moves.
pub fn promote_hint(moves: &mut Vec<Move>, hint: Move)
    ensures
        final(moves)@ == with_hint_first(old(moves)@, hint),
        final(moves)@.len() == old(moves)@.len(),
        forall|m: Move| final(moves)@.contains(m) <==> old(moves)@.contains(m),
{
    let mut pos: usize = 0;
    while pos < moves.len()
        invariant
            pos <= moves@.len(),
            moves@ == old(moves)@,
            forall|i: int| 0 <= i < pos ==> moves@[i] != hint,
        decreases moves@.len() - pos,
    {
        if same_move(moves[pos], hint) {
            proof {
                assert(is_first_index(moves@, hint, pos as int));
                let q = choose|i: int| is_first_index(moves@, hint, i);
                assert(q == pos);
            }
            let first = moves[0];
            moves.set(pos, first);
            moves.set(0, hint);
            proof {
                let s0 = old(moves)@;
                let s1 = moves@;
                assert forall|m: Move| s1.contains(m) <==> s0.contains(m) by {
                    if s1.contains(m) {
                        let a = choose|a: int| 0 <= a < s1.len() && s1[a] == m;
                        if a == 0 {
                            assert(s0[pos as int] == m);
                        } else if a == pos {
                            assert(s0[0] == m);
                        } else {
                            assert(s0[a] == m);
                        }
                    }
                    if s0.contains(m) {
                        let a = choose|a: int| 0 <= a < s0.len() && s0[a] == m;
                        if a == 0 {
                            assert(s1[if pos == 0 { 0int } else { pos as int }] == m);
                        } else if a == pos {
                            assert(s1[0] == m);
                        } else {
                            assert(s1[a] == m);
                        }
                    }
                }
            }
            return ;
        }
        pos += 1;
    }
}

} // verus!
