//! The mobility evaluation and its symmetry between the two sides.

use vstd::prelude::*;

use super::board::{Board, BoardView, Player, copy_board, mirror, swap_sides};
use super::movegen::{MAX_MOVES, legal_moves, lemma_moves_bound, lemma_piece_moves_swap, moves};

verus! {

/// The number of moves `p` would have on `b` if it were `p`'s turn.
pub open spec fn mobility(b: BoardView, p: Player) -> int {
    legal_moves(b.with_player(p)).len() as int
}

/// White's mobility minus Black's.
pub open spec fn score(b: BoardView) -> int {
    mobility(b, Player::White) - mobility(b, Player::Black)
}

fn count_moves(board: &Board, p: Player) -> (r: usize)
    requires
        board@.wf(),
    ensures
        r == mobility(board@, p),
        r <= MAX_MOVES,
{
    let mut b = copy_board(board);
    b.player = p;
    assert(b@ == board@.with_player(p));
    proof {
        lemma_moves_bound(b@);
    }
    moves(&b).len()
}

/// The mobility score: White's number of legal moves minus Black's; positive favours White.
pub fn eval_board(b: &Board) -> (r: isize)
    requires
        b@.wf(),
    ensures
        r == score(b@),
        -MAX_MOVES <= r <= MAX_MOVES,
{
    let w_moves = count_moves(b, Player::White);
    let b_moves = count_moves(b, Player::Black);
    w_moves as isize - b_moves as isize
}

proof fn lemma_mobility_swap(b: BoardView, p: Player, q: Player)
    requires
        b.wf(),
        p != q,
    ensures
        mobility(swap_sides(b), p) == mobility(b, q),
{
    let c = b.with_player(q);
    let m = swap_sides(b).with_player(p);
    assert(m == mirror(c, p));
    assert(m.own() == c.own());
    assert(m.enemy() == c.enemy());
    assert forall|i: int| 0 <= i < c.own().len() implies c.black.contains(#[trigger] c.own()[i])
        != c.white.contains(c.own()[i]) by {
        let s = c.own()[i];
        if q == Player::White {
            assert(b.white.contains(s));
        } else {
            assert(b.black.contains(s));
        }
    }
    lemma_piece_moves_swap(c, p, c.own());
}

/// Exchanging the two sides' amazons negates the score: each side's mobility is counted
/// with the same rules.
pub proof fn lemma_eval_antisymmetric(b: BoardView)
    requires
        b.wf(),
    ensures
        score(swap_sides(b)) == -score(b),
{
    lemma_mobility_swap(b, Player::White, Player::Black);
    lemma_mobility_swap(b, Player::Black, Player::White);
}

/// The score of a well-formed board lies within `MAX_MOVES` of zero.
pub proof fn lemma_score_bound(b: BoardView)
    requires
        b.wf(),
    ensures
        -MAX_MOVES <= score(b) <= MAX_MOVES,
{
    lemma_moves_bound(b.with_player(Player::White));
    lemma_moves_bound(b.with_player(Player::Black));
}

} // verus!
