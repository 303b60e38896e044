//! Depth-limited minimax with alpha-beta pruning, and its agreement with plain minimax.

use vstd::prelude::*;

use super::board::{Board, BoardView, Move, Player, applied, copy_board, placeholder, test_move};
use super::movegen::{legal_moves, lemma_apply_wf, lemma_moves_legal, moves};
use super::eval::{eval_board, lemma_score_bound, score};

verus! {

/// Alpha-beta search to `depth` plies: the score and the move chosen. White maximises,
/// Black minimises; a leaf reports the static score and the placeholder move.
pub open spec fn search(b: BoardView, depth: nat, alpha: int, beta: int) -> (int, Move)
    decreases depth, 1nat, 0nat,
{
    if depth == 0 {
        (score(b), placeholder())
    } else if b.player == Player::White {
        max_scan(b, legal_moves(b), depth, 0, alpha, beta, isize::MIN as int, placeholder())
    } else {
        min_scan(b, legal_moves(b), depth, 0, alpha, beta, isize::MAX as int, placeholder())
    }
}

/// The maximising node's scan of `ms` from index `i` on, with the window and the best
/// score and move so far. The first child always replaces the placeholder, a later one
/// only when strictly better; the scan stops once `beta <= alpha`.
pub open spec fn max_scan(
    b: BoardView,
    ms: Seq<Move>,
    depth: nat,
    i: int,
    alpha: int,
    beta: int,
    best: int,
    best_move: Move,
) -> (int, Move)
    decreases depth, 0nat, (ms.len() - i) as nat,
{
    if i < 0 || i >= ms.len() || depth == 0 {
        (best, best_move)
    } else {
        let e = search(applied(b, ms[i]), (depth - 1) as nat, alpha, beta).0;
        let take = i == 0 || e > best;
        let nb = if take { e } else { best };
        let nm = if take { ms[i] } else { best_move };
        let na = if e > alpha { e } else { alpha };
        if beta <= na {
            (nb, nm)
        } else {
            max_scan(b, ms, depth, i + 1, na, beta, nb, nm)
        }
    }
}

/// The minimising node's scan, as `max_scan` with the roles reversed; its score is the
/// final `beta`.
pub open spec fn min_scan(
    b: BoardView,
    ms: Seq<Move>,
    depth: nat,
    i: int,
    alpha: int,
    beta: int,
    best: int,
    best_move: Move,
) -> (int, Move)
    decreases depth, 0nat, (ms.len() - i) as nat,
{
    if i < 0 || i >= ms.len() || depth == 0 {
        (beta, best_move)
    } else {
        let e = search(applied(b, ms[i]), (depth - 1) as nat, alpha, beta).0;
        let take = i == 0 || e < best;
        let nb = if take { e } else { best };
        let nm = if take { ms[i] } else { best_move };
        let nbeta = if e < beta { e } else { beta };
        if nbeta <= alpha {
            (nbeta, nm)
        } else {
            min_scan(b, ms, depth, i + 1, alpha, nbeta, nb, nm)
        }
    }
}

/// Depth-limited minimax with alpha-beta pruning on `pos`, in the window (alpha, beta).
/// Moves are tried in the order `moves` gives them. Above depth 0, the move returned is
/// one of them wherever there is one; the placeholder only where there is none.
pub fn minimax(pos: Board, depth: usize, alpha: isize, beta: isize) -> (r: (isize, Move))
    requires
        pos@.wf(),
    ensures
        r.0 as int == search(pos@, depth as nat, alpha as int, beta as int).0,
        r.1 == search(pos@, depth as nat, alpha as int, beta as int).1,
        depth > 0 && legal_moves(pos@).len() > 0 ==> legal_moves(pos@).contains(r.1),
    decreases depth,
{
    let mut alpha = alpha;
    let mut beta = beta;
    let mut best_move: Move = ((0, 0), (0, 0), (0, 0));
    if depth == 0 {
        return (eval_board(&pos), best_move);
    }
    let ghost b = pos@;
    let ghost d = depth as nat;
    let ghost goal = search(b, d, alpha as int, beta as int);
    let ms = moves(&pos);
    let mut i: usize = 0;
    if pos.player == Player::White {
        let mut max_eval: isize = isize::MIN;
        while i < ms.len()
            invariant_except_break
                goal == max_scan(b, ms@, d, i as int, alpha as int, beta as int, max_eval as int, best_move),
            invariant
                pos@ == b,
                b.wf(),
                b.player == Player::White,
                d == depth,
                depth > 0,
                i <= ms.len(),
                ms@ == legal_moves(b),
                i > 0 ==> ms@.contains(best_move),
            ensures
                goal == (max_eval as int, best_move),
                ms.len() > 0 ==> ms@.contains(best_move),
            decreases ms.len() - i,
        {
            let m = ms[i];
            proof {
                assert(ms@.contains(m));
                lemma_moves_legal(b, m);
                lemma_apply_wf(b, m);
            }
            let child = match test_move(&pos, &m) {
                Ok(c) => c,
                Err(_) => {
                    // a generated move starts on an amazon of the side to move
                    assert(false);
                    break;
                },
            };
            let (eval, _) = minimax(child, depth - 1, alpha, beta);
            if i == 0 || eval > max_eval {
                max_eval = eval;
                best_move = m;
            }
            if eval > alpha {
                alpha = eval;
            }
            if beta <= alpha {
                break;
            }
            i += 1;
        }
        (max_eval, best_move)
    } else {
        let mut min_eval: isize = isize::MAX;
        while i < ms.len()
            invariant_except_break
                goal == min_scan(b, ms@, d, i as int, alpha as int, beta as int, min_eval as int, best_move),
            invariant
                pos@ == b,
                b.wf(),
                b.player == Player::Black,
                d == depth,
                depth > 0,
                i <= ms.len(),
                ms@ == legal_moves(b),
                i > 0 ==> ms@.contains(best_move),
            ensures
                goal == (beta as int, best_move),
                ms.len() > 0 ==> ms@.contains(best_move),
            decreases ms.len() - i,
        {
            let m = ms[i];
            proof {
                assert(ms@.contains(m));
                lemma_moves_legal(b, m);
                lemma_apply_wf(b, m);
            }
            let child = match test_move(&pos, &m) {
                Ok(c) => c,
                Err(_) => {
                    // a generated move starts on an amazon of the side to move
                    assert(false);
                    break;
                },
            };
            let (eval, _) = minimax(child, depth - 1, alpha, beta);
            if i == 0 || eval < min_eval {
                min_eval = eval;
                best_move = m;
            }
            if eval < beta {
                beta = eval;
            }
            if beta <= alpha {
                break;
            }
            i += 1;
        }
        (beta, best_move)
    }
}

/// The search depth, in plies, of `decide_move`.
pub const SEARCH_DEPTH: usize = 2;

/// The engine's move for the side to move: alpha-beta search to `SEARCH_DEPTH` plies over
/// the full window. The placeholder move comes back only where no move is legal.
pub fn decide_move(pos: &Board) -> (r: Move)
    requires
        pos@.wf(),
    ensures
        r == search(pos@, SEARCH_DEPTH as nat, isize::MIN as int, isize::MAX as int).1,
        legal_moves(pos@).len() > 0 ==> legal_moves(pos@).contains(r),
{
    let (_eval, best_move) = minimax(copy_board(pos), SEARCH_DEPTH, isize::MIN, isize::MAX);
    best_move
}

/// Where the side to move has exactly one legal move, a search of any positive depth picks
/// that move, whatever its window.
pub proof fn lemma_single_move(b: BoardView, depth: nat, alpha: int, beta: int)
    requires
        b.wf(),
        legal_moves(b).len() == 1,
        depth >= 1,
    ensures
        search(b, depth, alpha, beta).1 == legal_moves(b)[0],
{
    let ms = legal_moves(b);
    let m = ms[0];
    let e = search(applied(b, m), (depth - 1) as nat, alpha, beta).0;
    if b.player == Player::White {
        let na = if e > alpha { e } else { alpha };
        assert(max_scan(b, ms, depth, 1, na, beta, e, m) == (e, m));
    } else {
        let nbeta = if e < beta { e } else { beta };
        assert(min_scan(b, ms, depth, 1, alpha, nbeta, e, m) == (nbeta, m));
    }
}

/// Plain minimax value to `depth` plies, without pruning: the largest child value for
/// White, the smallest for Black; `isize::MIN` (White) or `isize::MAX` (Black) where the
/// side to move has no move.
pub open spec fn minimax_value(b: BoardView, depth: nat) -> int
    decreases depth, 1nat, 0nat,
{
    if depth == 0 {
        score(b)
    } else if b.player == Player::White {
        max_value(b, legal_moves(b), depth, 0)
    } else {
        min_value(b, legal_moves(b), depth, 0)
    }
}

/// The largest child value over `ms` from index `i` on; `isize::MIN` if none is left.
pub open spec fn max_value(b: BoardView, ms: Seq<Move>, depth: nat, i: int) -> int
    decreases depth, 0nat, (ms.len() - i) as nat,
{
    if i < 0 || i >= ms.len() || depth == 0 {
        isize::MIN as int
    } else {
        let e = minimax_value(applied(b, ms[i]), (depth - 1) as nat);
        let rest = max_value(b, ms, depth, i + 1);
        if e > rest { e } else { rest }
    }
}

/// The smallest child value over `ms` from index `i` on; `isize::MAX` if none is left.
pub open spec fn min_value(b: BoardView, ms: Seq<Move>, depth: nat, i: int) -> int
    decreases depth, 0nat, (ms.len() - i) as nat,
{
    if i < 0 || i >= ms.len() || depth == 0 {
        isize::MAX as int
    } else {
        let e = minimax_value(applied(b, ms[i]), (depth - 1) as nat);
        let rest = min_value(b, ms, depth, i + 1);
        if e < rest { e } else { rest }
    }
}

/// How a score found in the window (alpha, beta) stands to the true value `v`: exact
/// inside the window, on the same side of it outside.
pub open spec fn window_bound(r: int, v: int, alpha: int, beta: int) -> bool {
    &&& (alpha < v < beta ==> r == v)
    &&& (v <= alpha ==> r <= alpha)
    &&& (v >= beta ==> r >= beta)
}

pub open spec fn max2(a: int, b: int) -> int {
    if a > b { a } else { b }
}

pub open spec fn min2(a: int, b: int) -> int {
    if a < b { a } else { b }
}

proof fn lemma_max_scan_bound(
    b: BoardView,
    d: nat,
    i: int,
    alpha0: int,
    alpha: int,
    beta: int,
    best: int,
    bm: Move,
    prefix: int,
)
    requires
        b.wf(),
        b.player == Player::White,
        d >= 1,
        0 <= i <= legal_moves(b).len(),
        isize::MIN <= alpha0 < beta <= isize::MAX,
        alpha == max2(alpha0, best),
        alpha < beta,
        i == 0 ==> best == isize::MIN,
        isize::MIN <= best,
        isize::MIN <= prefix,
        prefix <= alpha0 ==> best <= alpha0,
        prefix > alpha0 ==> best == prefix,
    ensures
        window_bound(
            max_scan(b, legal_moves(b), d, i, alpha, beta, best, bm).0,
            max2(prefix, max_value(b, legal_moves(b), d, i)),
            alpha0,
            beta,
        ),
    decreases d, 0nat, legal_moves(b).len() - i,
{
    let ms = legal_moves(b);
    if i < ms.len() {
        let m = ms[i];
        assert(ms.contains(m));
        lemma_moves_legal(b, m);
        lemma_apply_wf(b, m);
        let c = applied(b, m);
        lemma_search_bound(c, (d - 1) as nat, alpha, beta);
        lemma_search_range(c, (d - 1) as nat, alpha, beta);
        let e = search(c, (d - 1) as nat, alpha, beta).0;
        let v = minimax_value(c, (d - 1) as nat);
        let nb = if i == 0 || e > best { e } else { best };
        let nm = if i == 0 || e > best { m } else { bm };
        let na = if e > alpha { e } else { alpha };
        if beta > na {
            lemma_max_scan_bound(b, d, i + 1, alpha0, na, beta, nb, nm, max2(prefix, v));
        }
    }
}

proof fn lemma_min_scan_bound(
    b: BoardView,
    d: nat,
    i: int,
    alpha: int,
    beta0: int,
    beta: int,
    best: int,
    bm: Move,
    prefix: int,
)
    requires
        b.wf(),
        b.player == Player::Black,
        d >= 1,
        0 <= i <= legal_moves(b).len(),
        isize::MIN <= alpha < beta0 <= isize::MAX,
        beta == min2(beta0, best),
        alpha < beta,
        i == 0 ==> best == isize::MAX,
        best <= isize::MAX,
        prefix <= isize::MAX,
        prefix >= beta0 ==> best >= beta0,
        prefix < beta0 ==> best == prefix,
    ensures
        window_bound(
            min_scan(b, legal_moves(b), d, i, alpha, beta, best, bm).0,
            min2(prefix, min_value(b, legal_moves(b), d, i)),
            alpha,
            beta0,
        ),
    decreases d, 0nat, legal_moves(b).len() - i,
{
    let ms = legal_moves(b);
    if i < ms.len() {
        let m = ms[i];
        assert(ms.contains(m));
        lemma_moves_legal(b, m);
        lemma_apply_wf(b, m);
        let c = applied(b, m);
        lemma_search_bound(c, (d - 1) as nat, alpha, beta);
        lemma_search_range(c, (d - 1) as nat, alpha, beta);
        let e = search(c, (d - 1) as nat, alpha, beta).0;
        let v = minimax_value(c, (d - 1) as nat);
        let nb = if i == 0 || e < best { e } else { best };
        let nm = if i == 0 || e < best { m } else { bm };
        let nbeta = if e < beta { e } else { beta };
        if nbeta > alpha {
            lemma_min_scan_bound(b, d, i + 1, alpha, beta0, nbeta, nb, nm, min2(prefix, v));
        }
    }
}

/// An alpha-beta score over a window within the sentinels lies within them too.
pub proof fn lemma_search_range(b: BoardView, depth: nat, alpha: int, beta: int)
    requires
        b.wf(),
        isize::MIN <= alpha <= isize::MAX,
        isize::MIN <= beta <= isize::MAX,
    ensures
        isize::MIN <= search(b, depth, alpha, beta).0 <= isize::MAX,
    decreases depth, 1nat, 0nat,
{
    if depth == 0 {
        lemma_score_bound(b);
    } else {
        lemma_scan_range(b, depth, 0, alpha, beta, if b.player == Player::White {
            isize::MIN as int
        } else {
            isize::MAX as int
        }, placeholder());
    }
}

proof fn lemma_scan_range(b: BoardView, d: nat, i: int, alpha: int, beta: int, best: int, bm: Move)
    requires
        b.wf(),
        d >= 1,
        0 <= i,
        isize::MIN <= alpha <= isize::MAX,
        isize::MIN <= beta <= isize::MAX,
        isize::MIN <= best <= isize::MAX,
    ensures
        isize::MIN <= max_scan(b, legal_moves(b), d, i, alpha, beta, best, bm).0 <= isize::MAX,
        isize::MIN <= min_scan(b, legal_moves(b), d, i, alpha, beta, best, bm).0 <= isize::MAX,
    decreases d, 0nat, legal_moves(b).len() - i,
{
    let ms = legal_moves(b);
    if i < ms.len() {
        let m = ms[i];
        assert(ms.contains(m));
        lemma_moves_legal(b, m);
        lemma_apply_wf(b, m);
        let c = applied(b, m);
        lemma_search_range(c, (d - 1) as nat, alpha, beta);
        let e = search(c, (d - 1) as nat, alpha, beta).0;
        let na = if e > alpha { e } else { alpha };
        let nbeta = if e < beta { e } else { beta };
        let nm = ms[i];
        lemma_scan_range(b, d, i + 1, na, beta, if i == 0 || e > best { e } else { best },
            if i == 0 || e > best { nm } else { bm });
        lemma_scan_range(b, d, i + 1, alpha, nbeta, if i == 0 || e < best { e } else { best },
            if i == 0 || e < best { nm } else { bm });
    }
}

/// The alpha-beta score over a window within the sentinels agrees with the plain minimax
/// value inside the window and lies on the same side of it outside.
pub proof fn lemma_search_bound(b: BoardView, depth: nat, alpha: int, beta: int)
    requires
        b.wf(),
        isize::MIN <= alpha < beta <= isize::MAX,
    ensures
        window_bound(search(b, depth, alpha, beta).0, minimax_value(b, depth), alpha, beta),
    decreases depth, 1nat, 0nat,
{
    if depth > 0 {
        if b.player == Player::White {
            lemma_max_scan_bound(b, depth, 0, alpha, alpha, beta, isize::MIN as int, placeholder(), isize::MIN as int);
        } else {
            lemma_min_scan_bound(b, depth, 0, alpha, beta, beta, isize::MAX as int, placeholder(), isize::MAX as int);
        }
    }
}

/// Pruning never changes the score of a full-window search: where the plain minimax value
/// lies strictly between the sentinels the two are equal, and a value at a sentinel is
/// met by a score at or beyond it.
pub proof fn lemma_pruning_preserves_score(b: BoardView, depth: nat)
    requires
        b.wf(),
    ensures
        window_bound(
            search(b, depth, isize::MIN as int, isize::MAX as int).0,
            minimax_value(b, depth),
            isize::MIN as int,
            isize::MAX as int,
        ),
{
    lemma_search_bound(b, depth, isize::MIN as int, isize::MAX as int);
}

/// The move plain minimax picks: the first child of the largest value for White, of the
/// smallest for Black (the first child where all tie), scanning `ms` from index `i` with the best value and move so far.
pub open spec fn minimax_choice(b: BoardView, ms: Seq<Move>, depth: nat, i: int, best: int, bm: Move) -> Move
    decreases (ms.len() - i) as nat,
{
    if i < 0 || i >= ms.len() || depth == 0 {
        bm
    } else {
        let v = minimax_value(applied(b, ms[i]), (depth - 1) as nat);
        let better = i == 0 || if b.player == Player::White { v > best } else { v < best };
        if better {
            minimax_choice(b, ms, depth, i + 1, v, ms[i])
        } else {
            minimax_choice(b, ms, depth, i + 1, best, bm)
        }
    }
}

/// The move plain minimax picks at the root: the placeholder where there is no move or
/// `depth` is 0.
pub open spec fn minimax_move(b: BoardView, depth: nat) -> Move {
    let sentinel = if b.player == Player::White { isize::MIN as int } else { isize::MAX as int };
    minimax_choice(b, legal_moves(b), depth, 0, sentinel, placeholder())
}

proof fn lemma_value_range(b: BoardView, depth: nat)
    requires
        b.wf(),
    ensures
        isize::MIN <= minimax_value(b, depth) <= isize::MAX,
    decreases depth, 1nat, 0nat,
{
    if depth == 0 {
        lemma_score_bound(b);
    } else {
        lemma_scan_value_range(b, legal_moves(b), depth, 0);
    }
}

proof fn lemma_scan_value_range(b: BoardView, ms: Seq<Move>, depth: nat, i: int)
    requires
        b.wf(),
        ms == legal_moves(b),
        depth >= 1,
    ensures
        isize::MIN <= max_value(b, ms, depth, i) <= isize::MAX,
        isize::MIN <= min_value(b, ms, depth, i) <= isize::MAX,
    decreases depth, 0nat, (ms.len() - i) as nat,
{
    if 0 <= i < ms.len() {
        assert(ms.contains(ms[i]));
        lemma_moves_legal(b, ms[i]);
        lemma_apply_wf(b, ms[i]);
        lemma_value_range(applied(b, ms[i]), (depth - 1) as nat);
        lemma_scan_value_range(b, ms, depth, i + 1);
    }
}

proof fn lemma_choice_stays(b: BoardView, ms: Seq<Move>, depth: nat, i: int, best: int, bm: Move)
    requires
        b.wf(),
        ms == legal_moves(b),
        depth >= 1,
        0 < i,
        b.player == Player::White ==> best >= isize::MAX,
        b.player == Player::Black ==> best <= isize::MIN,
    ensures
        minimax_choice(b, ms, depth, i, best, bm) == bm,
    decreases (ms.len() - i) as nat,
{
    if i < ms.len() {
        assert(ms.contains(ms[i]));
        lemma_moves_legal(b, ms[i]);
        lemma_apply_wf(b, ms[i]);
        lemma_value_range(applied(b, ms[i]), (depth - 1) as nat);
        lemma_choice_stays(b, ms, depth, i + 1, best, bm);
    }
}

proof fn lemma_max_scan_move(b: BoardView, d: nat, i: int, best: int, bm: Move)
    requires
        b.wf(),
        b.player == Player::White,
        d >= 1,
        0 < i <= legal_moves(b).len(),
        isize::MIN <= best < isize::MAX,
    ensures
        max_scan(b, legal_moves(b), d, i, best, isize::MAX as int, best, bm).1
            == minimax_choice(b, legal_moves(b), d, i, best, bm),
    decreases legal_moves(b).len() - i,
{
    let ms = legal_moves(b);
    if i < ms.len() {
        let m = ms[i];
        assert(ms.contains(m));
        lemma_moves_legal(b, m);
        lemma_apply_wf(b, m);
        let c = applied(b, m);
        lemma_search_bound(c, (d - 1) as nat, best, isize::MAX as int);
        lemma_value_range(c, (d - 1) as nat);
        let e = search(c, (d - 1) as nat, best, isize::MAX as int).0;
        let v = minimax_value(c, (d - 1) as nat);
        if e > best {
            if e < isize::MAX {
                lemma_max_scan_move(b, d, i + 1, e, m);
            } else {
                lemma_choice_stays(b, ms, d, i + 1, v, m);
            }
        } else {
            lemma_max_scan_move(b, d, i + 1, best, bm);
        }
    }
}

proof fn lemma_min_scan_move(b: BoardView, d: nat, i: int, best: int, bm: Move)
    requires
        b.wf(),
        b.player == Player::Black,
        d >= 1,
        0 < i <= legal_moves(b).len(),
        isize::MIN < best <= isize::MAX,
    ensures
        min_scan(b, legal_moves(b), d, i, isize::MIN as int, best, best, bm).1
            == minimax_choice(b, legal_moves(b), d, i, best, bm),
    decreases legal_moves(b).len() - i,
{
    let ms = legal_moves(b);
    if i < ms.len() {
        let m = ms[i];
        assert(ms.contains(m));
        lemma_moves_legal(b, m);
        lemma_apply_wf(b, m);
        let c = applied(b, m);
        lemma_search_bound(c, (d - 1) as nat, isize::MIN as int, best);
        lemma_value_range(c, (d - 1) as nat);
        let e = search(c, (d - 1) as nat, isize::MIN as int, best).0;
        let v = minimax_value(c, (d - 1) as nat);
        if e < best {
            if e > isize::MIN {
                lemma_min_scan_move(b, d, i + 1, e, m);
            } else {
                lemma_choice_stays(b, ms, d, i + 1, v, m);
            }
        } else {
            lemma_min_scan_move(b, d, i + 1, best, bm);
        }
    }
}

/// Pruning never changes the move chosen by a full-window search: it is the first move of
/// best plain minimax value, as an exhaustive search picks it.
#[verifier::rlimit(40)]
pub proof fn lemma_pruning_preserves_move(b: BoardView, depth: nat)
    requires
        b.wf(),
    ensures
        search(b, depth, isize::MIN as int, isize::MAX as int).1 == minimax_move(b, depth),
{
    let ms = legal_moves(b);
    if depth > 0 && ms.len() > 0 {
        let m = ms[0];
        assert(ms.contains(m));
        lemma_moves_legal(b, m);
        lemma_apply_wf(b, m);
        let c = applied(b, m);
        let (lo, hi) = (isize::MIN as int, isize::MAX as int);
        lemma_search_bound(c, (depth - 1) as nat, lo, hi);
        lemma_search_range(c, (depth - 1) as nat, lo, hi);
        lemma_value_range(c, (depth - 1) as nat);
        let e = search(c, (depth - 1) as nat, lo, hi).0;
        assert(e == minimax_value(c, (depth - 1) as nat));
        if b.player == Player::White {
            if e < hi {
                lemma_max_scan_move(b, depth, 1, e, m);
            } else {
                lemma_choice_stays(b, ms, depth, 1, e, m);
            }
        } else {
            if e > lo {
                lemma_min_scan_move(b, depth, 1, e, m);
            } else {
                lemma_choice_stays(b, ms, depth, 1, e, m);
            }
        }
    }
}

} // verus!
