//! Zobrist fingerprints: one 64-bit key per cell and side, folded with XOR.
use vstd::prelude::*;
use rand::rngs::StdRng;
use rand::{Rng, SeedableRng};
use crate::board::{Board, grid_set, grid_shape, Move, valid_player};
use crate::moves::{grid_after, is_capture, is_jump, is_step};

verus! {

/// Number of keys in a table: one for each of the 81 cells and each side.
pub const KEY_COUNT: usize = 162;

/// Seed from which every table is generated.
pub const ZOBRIST_SEED: u64 = 0;

/// The values that `rand`'s standard generator yields after it has been
/// seeded with `seed`: the first `count` draws of a `u64`, in order.
pub uninterp spec fn seeded_u64_draws(seed: u64, count: nat) -> Seq<u64>;

/// Seeds `rand::rngs::StdRng` with `SeedableRng::seed_from_u64(seed)` and
/// draws `count` values with `Rng::gen::<u64>()`.
///
/// Trusted: the generator is deterministic, so the values drawn depend on
/// `seed` and `count` alone; the contract names them and states how many
/// there are. Nothing is claimed of the values themselves.
#[verifier::external_body]
fn draw_seeded_u64s(seed: u64, count: usize) -> (out: Vec<u64>)
    ensures
        out@ == seeded_u64_draws(seed, count as nat),
        out@.len() == count,
{
    let mut rng = StdRng::seed_from_u64(seed);
    let mut out: Vec<u64> = Vec::new();
    for _ in 0..count {
        out.push(rng.gen::<u64>());
    }
    out
}

/// Which of a cell's two keys belongs to the man `v`: 0 for side -1, 1 for
/// side 1.
pub open spec fn side_index(v: i8) -> int {
    if v == -1 {
        0
    } else {
        1
    }
}

/// Place of the key of cell (`r`, `c`) and man `v` in the table.
pub open spec fn key_index(r: int, c: int, v: i8) -> int {
    (r * 9 + c) * 2 + side_index(v)
}

/// What cell number `k` (row by row) contributes to the fingerprint: nothing
/// where it is empty, else the key of the cell and the man on it.
pub open spec fn cell_key(keys: Seq<u64>, g: Seq<Seq<i8>>, k: int) -> u64 {
    let v = g[k / 9][k % 9];
    if v == 0 {
        0
    } else {
        keys[k * 2 + side_index(v)]
    }
}

/// XOR of the contributions of the first `n` cells.
pub open spec fn fingerprint_upto(keys: Seq<u64>, g: Seq<Seq<i8>>, n: nat) -> u64
    decreases n,
{
    if n == 0 {
        0
    } else {
        fingerprint_upto(keys, g, (n - 1) as nat) ^ cell_key(keys, g, n - 1)
    }
}

/// The fingerprint of a position: the XOR of the keys of all occupied cells.
/// It depends on the placement of the men and on nothing else.
pub open spec fn fingerprint(keys: Seq<u64>, g: Seq<Seq<i8>>) -> u64 {
    fingerprint_upto(keys, g, 81)
}

/// XOR of the keys that the move `m` of side `p` toggles: the mover's key at
/// the origin and at the target, and with `captured` the other side's key at
/// the cell midway. Playing a move and taking it back toggle the same keys.
pub open spec fn move_toggle(keys: Seq<u64>, p: i8, m: Move, captured: bool) -> u64 {
    let own = keys[key_index(m.0 as int, m.1 as int, p)] ^ keys[key_index(
        m.2 as int,
        m.3 as int,
        p,
    )];
    if captured {
        own ^ keys[key_index((m.0 + m.2) / 2, (m.1 + m.3) / 2, (-p) as i8)]
    } else {
        own
    }
}

/// The fixed table of keys.
pub struct ZobristTable {
    pub keys: Vec<u64>,
}

impl View for ZobristTable {
    type V = Seq<u64>;

    open spec fn view(&self) -> Seq<u64> {
        self.keys@
    }
}

impl ZobristTable {
    /// The table holds one key for each cell and side.
    pub open spec fn wf(&self) -> bool {
        self.keys@.len() == KEY_COUNT
    }

    /// Generates the table from the fixed seed. Two tables built this way
    /// hold the same keys.
    pub fn new() -> (t: ZobristTable)
        ensures
            t.wf(),
            t@ == seeded_u64_draws(ZOBRIST_SEED, KEY_COUNT as nat),
    {
        ZobristTable { keys: draw_seeded_u64s(ZOBRIST_SEED, KEY_COUNT) }
    }

    /// The key of cell (`r`, `c`) for the man `v`.
    pub fn key(&self, r: usize, c: usize, v: i8) -> (k: u64)
        requires
            self.wf(),
            r < 9,
            c < 9,
        ensures
            k == self@[key_index(r as int, c as int, v)],
    {
        let side: usize = if v == -1 { 0 } else { 1 };
        self.keys[(r * 9 + c) * 2 + side]
    }

    /// The fingerprint of `board`, computed from scratch.
    pub fn compute_hash_key(&self, board: &Board) -> (h: u64)
        requires
            self.wf(),
        ensures
            h == fingerprint(self@, board@),
    {
        let mut h: u64 = 0;
        let mut i: usize = 0;
        while i < 9
            invariant
                i <= 9,
                self.wf(),
                h == fingerprint_upto(self@, board@, (i * 9) as nat),
            decreases 9 - i,
        {
            let mut j: usize = 0;
            while j < 9
                invariant
                    i < 9,
                    j <= 9,
                    self.wf(),
                    h == fingerprint_upto(self@, board@, (i * 9 + j) as nat),
                decreases 9 - j,
            {
                let piece = board.get(i, j);
                let ghost n = (i * 9 + j) as int;
                assert(n / 9 == i && n % 9 == j);
                if piece != 0 {
                    h ^= self.key(i, j, piece);
                } else {
                    assert(h ^ 0 == h) by (bit_vector);
                }
                assert(h == fingerprint_upto(self@, board@, (n + 1) as nat));
                j += 1;
            }
            i += 1;
        }
        h
    }
}

/// Changing one cell changes the fingerprint by the cell's old and new
/// contributions, and only once the fold has reached that cell.
pub proof fn lemma_fingerprint_set(keys: Seq<u64>, g: Seq<Seq<i8>>, r: int, c: int, v: i8, n: nat)
    requires
        grid_shape(g),
        0 <= r < 9,
        0 <= c < 9,
        n <= 81,
    ensures
        fingerprint_upto(keys, grid_set(g, r, c, v), n) == if r * 9 + c < n {
            fingerprint_upto(keys, g, n) ^ cell_key(keys, g, r * 9 + c) ^ cell_key(
                keys,
                grid_set(g, r, c, v),
                r * 9 + c,
            )
        } else {
            fingerprint_upto(keys, g, n)
        },
    decreases n,
{
    let g2 = grid_set(g, r, c, v);
    let k = r * 9 + c;
    if n > 0 {
        lemma_fingerprint_set(keys, g, r, c, v, (n - 1) as nat);
        let a = fingerprint_upto(keys, g, (n - 1) as nat);
        let old_k = cell_key(keys, g, k);
        let new_k = cell_key(keys, g2, k);
        if n - 1 == k {
            assert(((a ^ old_k) ^ old_k) ^ new_k == a ^ new_k) by (bit_vector);
        } else {
            let x = cell_key(keys, g, n - 1);
            let rr = (n - 1) / 9;
            let cc = (n - 1) % 9;
            assert(rr != r || cc != c);
            assert(g2[rr][cc] == g[rr][cc]);
            assert(cell_key(keys, g2, n - 1) == x);
            if k < n - 1 {
                assert(((a ^ old_k) ^ new_k) ^ x == ((a ^ x) ^ old_k) ^ new_k) by (bit_vector);
            }
        }
    }
}

/// Toggling the same keys twice gives the key back.
pub proof fn lemma_toggle_twice(h: u64, t: u64)
    ensures
        (h ^ t) ^ t == h,
{
    assert((h ^ t) ^ t == h) by (bit_vector);
}

/// The fingerprint kept up to date move by move is the fingerprint computed
/// from scratch: where `h` is the fingerprint of `g` and `m` is a capture or a
/// quiet move of side `p` on `g`, toggling the move's keys in `h` gives the
/// fingerprint of the grid after the move. So the fingerprint of a position
/// does not depend on the moves that led to it.
pub proof fn lemma_incremental_fingerprint(keys: Seq<u64>, g: Seq<Seq<i8>>, p: i8, m: Move)
    requires
        grid_shape(g),
        valid_player(p),
        is_capture(g, p, m) || is_step(g, p, m),
    ensures
        fingerprint(keys, g) ^ move_toggle(keys, p, m, is_jump(m)) == fingerprint(
            keys,
            grid_after(g, p, m),
        ),
{
    let (fr, fc, tr, tc) = (m.0 as int, m.1 as int, m.2 as int, m.3 as int);
    let h = fingerprint(keys, g);
    let g1 = grid_set(g, fr, fc, 0);
    let g2 = grid_set(g1, tr, tc, p);
    let kf = keys[key_index(fr, fc, p)];
    let kt = keys[key_index(tr, tc, p)];
    lemma_fingerprint_set(keys, g, fr, fc, 0, 81);
    lemma_fingerprint_set(keys, g1, tr, tc, p, 81);
    assert((fr * 9 + fc) / 9 == fr && (fr * 9 + fc) % 9 == fc);
    assert((tr * 9 + tc) / 9 == tr && (tr * 9 + tc) % 9 == tc);
    assert(cell_key(keys, g, fr * 9 + fc) == kf);
    assert(cell_key(keys, g1, fr * 9 + fc) == 0);
    assert(g1[tr][tc] == 0);
    assert(cell_key(keys, g1, tr * 9 + tc) == 0);
    assert(cell_key(keys, g2, tr * 9 + tc) == kt);
    assert(((h ^ kf) ^ 0) ^ 0 ^ kt == h ^ (kf ^ kt)) by (bit_vector);
    assert(fingerprint(keys, g2) == h ^ (kf ^ kt));
    if is_jump(m) {
        let mr = (fr + tr) / 2;
        let mc = (fc + tc) / 2;
        let km = keys[key_index(mr, mc, (-p) as i8)];
        let g3 = grid_set(g2, mr, mc, 0);
        lemma_fingerprint_set(keys, g2, mr, mc, 0, 81);
        assert((mr * 9 + mc) / 9 == mr && (mr * 9 + mc) % 9 == mc);
        assert(g2[mr][mc] == -p);
        assert(cell_key(keys, g2, mr * 9 + mc) == km);
        assert(cell_key(keys, g3, mr * 9 + mc) == 0);
        assert(((h ^ (kf ^ kt)) ^ km) ^ 0 == h ^ ((kf ^ kt) ^ km)) by (bit_vector);
    }
}

/// The grid reached from `g` when the two sides play the moves of `line` in
/// turn, `p` first.
pub open spec fn grid_after_line(g: Seq<Seq<i8>>, p: i8, line: Seq<Move>) -> Seq<Seq<i8>>
    decreases line.len(),
{
    if line.len() == 0 {
        g
    } else {
        grid_after_line(grid_after(g, p, line[0]), (-p) as i8, line.skip(1))
    }
}

/// The key reached from `h` when the keys of the moves of `line` are toggled
/// one move after the other, `p` moving first.
pub open spec fn key_after_line(keys: Seq<u64>, h: u64, p: i8, line: Seq<Move>) -> u64
    decreases line.len(),
{
    if line.len() == 0 {
        h
    } else {
        key_after_line(
            keys,
            h ^ move_toggle(keys, p, line[0], is_jump(line[0])),
            (-p) as i8,
            line.skip(1),
        )
    }
}

/// Every move of `line` is a capture or a quiet move of the side whose turn
/// it is, on the grid that the moves before it have left.
pub open spec fn line_is_playable(g: Seq<Seq<i8>>, p: i8, line: Seq<Move>) -> bool
    decreases line.len(),
{
    line.len() == 0 || ((is_capture(g, p, line[0]) || is_step(g, p, line[0])) && line_is_playable(
        grid_after(g, p, line[0]),
        (-p) as i8,
        line.skip(1),
    ))
}

/// A fingerprint that is kept up to date along a line of play is the
/// fingerprint of the position that the line reaches.
pub proof fn lemma_fingerprint_follows_line(keys: Seq<u64>, g: Seq<Seq<i8>>, p: i8, line: Seq<Move>)
    requires
        grid_shape(g),
        valid_player(p),
        line_is_playable(g, p, line),
    ensures
        key_after_line(keys, fingerprint(keys, g), p, line) == fingerprint(
            keys,
            grid_after_line(g, p, line),
        ),
    decreases line.len(),
{
    if line.len() > 0 {
        lemma_incremental_fingerprint(keys, g, p, line[0]);
        let g1 = grid_after(g, p, line[0]);
        assert(grid_shape(g1));
        lemma_fingerprint_follows_line(keys, g1, (-p) as i8, line.skip(1));
    }
}

/// Two lines of play that reach the same placement of men reach the same
/// fingerprint, whatever the positions they started from and the moves they
/// took.
pub proof fn lemma_fingerprint_ignores_history(
    keys: Seq<u64>,
    start_a: Seq<Seq<i8>>,
    side_a: i8,
    line_a: Seq<Move>,
    start_b: Seq<Seq<i8>>,
    side_b: i8,
    line_b: Seq<Move>,
)
    requires
        grid_shape(start_a),
        grid_shape(start_b),
        valid_player(side_a),
        valid_player(side_b),
        line_is_playable(start_a, side_a, line_a),
        line_is_playable(start_b, side_b, line_b),
        grid_after_line(start_a, side_a, line_a) == grid_after_line(start_b, side_b, line_b),
    ensures
        key_after_line(keys, fingerprint(keys, start_a), side_a, line_a) == key_after_line(
            keys,
            fingerprint(keys, start_b),
            side_b,
            line_b,
        ),
{
    lemma_fingerprint_follows_line(keys, start_a, side_a, line_a);
    lemma_fingerprint_follows_line(keys, start_b, side_b, line_b);
}

} // verus!
