use alphabeta::amazons::{
    adjacent, apply_move, decide_move, eval_board, minimax, moves, reachable, starting_board,
    test_half_move, test_move, well_formed, Board, Move, MoveError, Player, Square,
};

const PLACEHOLDER: Move = ((0, 0), (0, 0), (0, 0));

fn board(black: &[Square], white: &[Square], arrows: &[Square], player: Player) -> Board {
    Board {
        black: black.to_vec(),
        white: white.to_vec(),
        arrows: arrows.to_vec(),
        player,
    }
}

fn occupied(b: &Board, s: Square) -> bool {
    b.black.contains(&s) || b.white.contains(&s) || b.arrows.contains(&s)
}

/// White confined to a corner with a single legal move, Black likewise in the far corner.
fn one_move_each(player: Player) -> Board {
    board(
        &[(9, 9)],
        &[(0, 0)],
        &[(0, 1), (1, 1), (2, 0), (2, 1), (8, 8), (9, 8), (7, 9), (7, 8)],
        player,
    )
}

/// Each side holds one amazon in its own walled-off 3x3 corner.
fn walled_corners(player: Player) -> Board {
    let mut arrows = Vec::new();
    for i in 0..4 {
        arrows.push((3, i));
        arrows.push((i, 3));
        arrows.push((6, 9 - i));
        arrows.push((9 - i, 6));
    }
    arrows.dedup();
    arrows.sort();
    arrows.dedup();
    board(&[(8, 8)], &[(1, 1)], &arrows, player)
}

/// Two amazons a side in a walled strip, with a few arrows already shot.
fn strip(player: Player) -> Board {
    let mut arrows = Vec::new();
    for x in 0..10 {
        arrows.push((x, 3));
    }
    arrows.push((4, 1));
    arrows.push((5, 0));
    board(&[(0, 0), (9, 2)], &[(2, 2), (7, 1)], &arrows, player)
}

/// Plain minimax without pruning, with the same sentinels and tie rule as the engine: the
/// first child is taken, a later one only when strictly better.
fn exhaustive(b: &Board, depth: usize) -> (isize, Move) {
    if depth == 0 {
        return (eval_board(b), PLACEHOLDER);
    }
    let mut best_move = PLACEHOLDER;
    let white = b.player == Player::White;
    let mut best = if white { isize::MIN } else { isize::MAX };
    for (i, m) in moves(b).into_iter().enumerate() {
        let child = test_move(b, &m).unwrap();
        let (e, _) = exhaustive(&child, depth - 1);
        if i == 0 || (white && e > best) || (!white && e < best) {
            best = e;
            best_move = m;
        }
    }
    (best, best_move)
}

#[test]
fn starting_board_places_eight_amazons() {
    let b = starting_board();
    assert_eq!(b.black, vec![(3, 0), (6, 0), (0, 3), (9, 3)]);
    assert_eq!(b.white, vec![(0, 6), (9, 6), (3, 9), (6, 9)]);
    assert!(b.arrows.is_empty());
    assert_eq!(b.player, Player::White);
}

#[test]
fn starting_position_move_count() {
    let b = starting_board();
    assert_eq!(moves(&b).len(), 2176);
}

#[test]
fn generated_moves_are_legal() {
    for b in [starting_board(), strip(Player::White), strip(Player::Black), walled_corners(Player::Black)] {
        let own = if b.player == Player::White { &b.white } else { &b.black };
        for m in moves(&b) {
            let (s, d, a) = m;
            assert!(own.contains(&s));
            assert!(d.0 < 10 && d.1 < 10 && !occupied(&b, d));
            assert!(reachable(&b, &s).contains(&d));
            let half = test_half_move(&b, &s, &d).unwrap();
            assert!(a.0 < 10 && a.1 < 10 && !occupied(&half, a));
            assert!(reachable(&half, &d).contains(&a));
        }
    }
}

#[test]
fn moves_put_arrows_next_to_enemies_first() {
    let b = starting_board();
    let ms = moves(&b);
    let near = |m: &Move| b.black.iter().any(|e| adjacent(&m.2, e));
    let n_near = ms.iter().filter(|m| near(m)).count();
    assert!(n_near > 0 && n_near < ms.len());
    assert!(ms[..n_near].iter().all(|m| near(m)));
    assert!(ms[n_near..].iter().all(|m| !near(m)));
}

#[test]
fn reachable_from_corner_amazon() {
    let b = starting_board();
    let r = reachable(&b, &(0, 6));
    assert_eq!(r.len(), 20);
    assert_eq!(r[0], (0, 5));
    assert!(r.contains(&(8, 6)));
    assert!(!r.contains(&(9, 6)));
    assert!(r.contains(&(5, 1)));
    assert!(!r.contains(&(6, 0)));
    assert!(r.contains(&(2, 8)));
    assert!(!r.contains(&(3, 9)));
}

#[test]
fn adjacency() {
    assert!(adjacent(&(4, 4), &(5, 5)));
    assert!(adjacent(&(4, 4), &(4, 4)));
    assert!(adjacent(&(0, 0), &(1, 0)));
    assert!(!adjacent(&(4, 4), &(6, 4)));
    assert!(!adjacent(&(0, 0), &(0, 2)));
}

#[test]
fn apply_literal_opening_move() {
    let mut b = starting_board();
    let m: Move = ((0, 6), (1, 6), (2, 6));
    assert_eq!(apply_move(&mut b, &m), Ok(()));
    assert!(!b.white.contains(&(0, 6)));
    assert!(b.white.contains(&(1, 6)));
    assert!(b.arrows.contains(&(2, 6)));
    assert_eq!(b.player, Player::Black);
    assert!(!moves(&b).is_empty());
}

#[test]
fn apply_move_rejects_foreign_start() {
    let mut b = starting_board();
    let before = b.clone();
    assert_eq!(apply_move(&mut b, &((3, 0), (3, 1), (3, 2))), Err(MoveError::InvalidMove));
    assert_eq!(apply_move(&mut b, &((5, 5), (5, 6), (5, 7))), Err(MoveError::InvalidMove));
    assert_eq!(b.white, before.white);
    assert_eq!(b.black, before.black);
    assert_eq!(b.player, Player::White);
}

#[test]
fn test_move_is_deterministic_and_leaves_input() {
    let b = starting_board();
    let m: Move = ((9, 6), (9, 5), (9, 4));
    let r1 = test_move(&b, &m).unwrap();
    let r2 = test_move(&b, &m).unwrap();
    assert_eq!(r1.black, r2.black);
    assert_eq!(r1.white, r2.white);
    assert_eq!(r1.arrows, r2.arrows);
    assert_eq!(r1.player, r2.player);
    assert_eq!(r1.white, vec![(0, 6), (9, 5), (3, 9), (6, 9)]);
    assert_eq!(r1.arrows, vec![(9, 4)]);
    assert_eq!(b.white, vec![(0, 6), (9, 6), (3, 9), (6, 9)]);
    assert!(b.arrows.is_empty());
    assert_eq!(b.player, Player::White);
    assert!(test_move(&b, &((3, 0), (3, 1), (3, 2))).is_err());
}

#[test]
fn half_move_keeps_side() {
    let b = starting_board();
    let h = test_half_move(&b, &(0, 6), &(0, 7)).unwrap();
    assert_eq!(h.white, vec![(0, 7), (9, 6), (3, 9), (6, 9)]);
    assert_eq!(h.black, b.black);
    assert!(h.arrows.is_empty());
    assert_eq!(h.player, Player::White);
    let h = test_half_move(&b, &(3, 0), &(3, 1)).unwrap();
    assert_eq!(h.black, vec![(3, 1), (6, 0), (0, 3), (9, 3)]);
    assert_eq!(h.white, b.white);
    assert_eq!(test_half_move(&b, &(5, 5), &(5, 6)).unwrap_err(), MoveError::InvalidMove);
}

#[test]
fn arrow_may_pass_vacated_start() {
    let b = one_move_each(Player::White);
    assert_eq!(moves(&b), vec![((0, 0), (1, 0), (0, 0))]);
}

#[test]
fn eval_of_symmetric_start_is_zero() {
    assert_eq!(eval_board(&starting_board()), 0);
}

#[test]
fn eval_counts_mobility_difference() {
    let b = strip(Player::Black);
    let mut w = b.clone();
    w.player = Player::White;
    let mut k = b.clone();
    k.player = Player::Black;
    let expected = moves(&w).len() as isize - moves(&k).len() as isize;
    assert_eq!(eval_board(&b), expected);
    assert_eq!(eval_board(&w), expected);
    assert_eq!(eval_board(&one_move_each(Player::White)), 0);
}

#[test]
fn eval_antisymmetric_under_side_swap() {
    for b in [starting_board(), strip(Player::White)] {
        let mut swapped = b.clone();
        swapped.black = b.white.clone();
        swapped.white = b.black.clone();
        assert_eq!(eval_board(&swapped), -eval_board(&b));
    }
    let b = strip(Player::White);
    assert_ne!(eval_board(&b), 0);
}

#[test]
fn minimax_depth_zero_is_static_score() {
    let b = strip(Player::White);
    assert_eq!(minimax(b.clone(), 0, isize::MIN, isize::MAX), (eval_board(&b), PLACEHOLDER));
}

#[test]
fn decide_move_single_legal_move() {
    for p in [Player::White, Player::Black] {
        let b = one_move_each(p);
        let ms = moves(&b);
        assert_eq!(ms.len(), 1);
        assert_eq!(decide_move(&b), ms[0]);
        for depth in 1..5 {
            assert_eq!(minimax(b.clone(), depth, isize::MIN, isize::MAX).1, ms[0]);
        }
    }
}

#[test]
fn forced_loss_still_returns_the_move() {
    // Three plies on, White is left without a move, so the only line scores isize::MIN;
    // it is still the move returned.
    let b = one_move_each(Player::White);
    let ms = moves(&b);
    assert_eq!(minimax(b, 3, isize::MIN, isize::MAX), (isize::MIN, ms[0]));
}

#[test]
fn decide_move_without_moves_is_placeholder() {
    let b = board(&[(9, 9)], &[(0, 0)], &[(0, 1), (1, 1), (1, 0)], Player::White);
    assert!(moves(&b).is_empty());
    assert_eq!(decide_move(&b), PLACEHOLDER);
}

#[test]
fn pruning_matches_exhaustive_search() {
    for b in [
        walled_corners(Player::White),
        walled_corners(Player::Black),
        strip(Player::White),
        strip(Player::Black),
        one_move_each(Player::White),
    ] {
        for depth in 1..3 {
            let pruned = minimax(b.clone(), depth, isize::MIN, isize::MAX);
            assert_eq!(pruned, exhaustive(&b, depth));
        }
        assert_eq!(decide_move(&b), exhaustive(&b, 2).1);
    }
}

#[test]
fn well_formed_positions() {
    assert!(well_formed(&starting_board()));
    assert!(well_formed(&strip(Player::Black)));
    let mut b = starting_board();
    apply_move(&mut b, &((0, 6), (1, 6), (2, 6))).unwrap();
    assert!(well_formed(&b));
    assert!(!well_formed(&board(&[(10, 0)], &[(0, 0)], &[], Player::White)));
    assert!(!well_formed(&board(&[(1, 1), (1, 1)], &[(0, 0)], &[], Player::White)));
    assert!(!well_formed(&board(&[(1, 1)], &[(1, 1)], &[], Player::White)));
    assert!(!well_formed(&board(&[(1, 1)], &[(0, 0)], &[(0, 0)], Player::White)));
}
