//! Move generation, its ordering heuristic, and the legality of what it returns.

use vstd::prelude::*;

use super::board::{
    Board, BoardView, Move, Player, S, Square, adjacent, applied, disjoint, half_moved,
    is_adjacent, lemma_relocate, mirror, relocate, square_in_bounds, test_half_move,
};
use super::reach::{lemma_reach, lemma_reach_member, lemma_reach_swap, reach, reachable};

verus! {

/// Every arrow shot from `d` once the amazon on `p` stands there, as moves. The square `p`
/// is empty by then: an arrow may land on it or fly through it, as the rules of the game
/// allow.
pub open spec fn arrow_moves(b: BoardView, p: Square, d: Square) -> Seq<Move> {
    tag(p, d, reach(half_moved(b, p, d), d))
}

/// Each arrow square of `arrows` made into a move from `p` to `d`.
pub open spec fn tag(p: Square, d: Square, arrows: Seq<Square>) -> Seq<Move> {
    arrows.map_values(|a: Square| (p, d, a))
}

/// The moves of the amazon on `p` to each destination of `ds`, in order.
pub open spec fn dest_moves(b: BoardView, p: Square, ds: Seq<Square>) -> Seq<Move>
    decreases ds.len(),
{
    if ds.len() == 0 {
        Seq::empty()
    } else {
        dest_moves(b, p, ds.drop_last()) + arrow_moves(b, p, ds.last())
    }
}

/// The moves of each amazon of `ps`, in order.
pub open spec fn piece_moves(b: BoardView, ps: Seq<Square>) -> Seq<Move>
    decreases ps.len(),
{
    if ps.len() == 0 {
        Seq::empty()
    } else {
        piece_moves(b, ps.drop_last()) + dest_moves(b, ps.last(), reach(b, ps.last()))
    }
}

/// All legal moves of the side to move, in the order they are generated.
pub open spec fn candidates(b: BoardView) -> Seq<Move> {
    piece_moves(b, b.own())
}

pub open spec fn near_enemy(a: Square, enemy: Seq<Square>) -> bool {
    exists|i: int| 0 <= i < enemy.len() && is_adjacent(a, #[trigger] enemy[i])
}

/// Generated moves placed one by one: a move whose arrow lands next to an enemy amazon
/// goes to the front, any other to the back.
pub open spec fn ordered(c: Seq<Move>, enemy: Seq<Square>) -> Seq<Move>
    decreases c.len(),
{
    if c.len() == 0 {
        Seq::empty()
    } else {
        let r = ordered(c.drop_last(), enemy);
        let m = c.last();
        if near_enemy(m.2, enemy) {
            seq![m] + r
        } else {
            r.push(m)
        }
    }
}

/// What `moves` returns.
pub open spec fn legal_moves(b: BoardView) -> Seq<Move> {
    ordered(candidates(b), b.enemy())
}

pub open spec fn rev<A>(s: Seq<A>) -> Seq<A> {
    Seq::new(s.len(), |j: int| s[s.len() - 1 - j])
}

/// Fronts (in reverse order of placement) followed by backs is the ordered sequence.
pub open spec fn split_of(fronts: Seq<Move>, backs: Seq<Move>, all: Seq<Move>, enemy: Seq<Square>) -> bool {
    rev(fronts) + backs == ordered(all, enemy)
}

fn near_enemy_exec(a: Square, enemy: &Vec<Square>) -> (r: bool)
    ensures
        r == near_enemy(a, enemy@),
{
    let mut i: usize = 0;
    while i < enemy.len()
        invariant
            i <= enemy.len(),
            forall|j: int| 0 <= j < i ==> !is_adjacent(a, #[trigger] enemy@[j]),
        decreases enemy.len() - i,
    {
        if adjacent(&a, &enemy[i]) {
            return true;
        }
        i += 1;
    }
    false
}

fn add_move(
    m: Move,
    enemy: &Vec<Square>,
    fronts: &mut Vec<Move>,
    backs: &mut Vec<Move>,
    Ghost(all): Ghost<Seq<Move>>,
)
    requires
        split_of(old(fronts)@, old(backs)@, all, enemy@),
    ensures
        split_of(final(fronts)@, final(backs)@, all.push(m), enemy@),
{
    let ghost ext = all.push(m);
    assert(ext.drop_last() =~= all);
    if near_enemy_exec(m.2, enemy) {
        let ghost f0 = fronts@;
        fronts.push(m);
        assert(rev(fronts@) =~= seq![m] + rev(f0));
        assert(rev(fronts@) + backs@ =~= seq![m] + (rev(f0) + backs@));
    } else {
        let ghost b0 = backs@;
        backs.push(m);
        assert(rev(fronts@) + backs@ =~= (rev(fronts@) + b0).push(m));
    }
}

fn add_arrows(
    board: &Board,
    p: Square,
    d: Square,
    enemy: &Vec<Square>,
    fronts: &mut Vec<Move>,
    backs: &mut Vec<Move>,
    Ghost(all): Ghost<Seq<Move>>,
)
    requires
        board@.black.contains(p) || board@.white.contains(p),
        square_in_bounds(d),
        split_of(old(fronts)@, old(backs)@, all, enemy@),
    ensures
        split_of(final(fronts)@, final(backs)@, all + arrow_moves(board@, p, d), enemy@),
{
    let trial = match test_half_move(board, &p, &d) {
        Ok(t) => t,
        Err(_) => {
            return;
        },
    };
    let arrows = reachable(&trial, &d);
    let mut k: usize = 0;
    while k < arrows.len()
        invariant
            k <= arrows.len(),
            arrows@ == reach(half_moved(board@, p, d), d),
            split_of(fronts@, backs@, all + tag(p, d, arrows@.take(k as int)), enemy@),
        decreases arrows.len() - k,
    {
        let m: Move = (p, d, arrows[k]);
        let ghost prev = all + tag(p, d, arrows@.take(k as int));
        add_move(m, enemy, fronts, backs, Ghost(prev));
        assert(tag(p, d, arrows@.take(k + 1)) =~= tag(p, d, arrows@.take(k as int)).push(m));
        assert(all + tag(p, d, arrows@.take(k + 1)) =~= prev.push(m));
        k += 1;
    }
    assert(arrows@.take(k as int) =~= arrows@);
}

fn add_piece(
    board: &Board,
    p: Square,
    enemy: &Vec<Square>,
    fronts: &mut Vec<Move>,
    backs: &mut Vec<Move>,
    Ghost(all): Ghost<Seq<Move>>,
)
    requires
        board@.black.contains(p) || board@.white.contains(p),
        square_in_bounds(p),
        split_of(old(fronts)@, old(backs)@, all, enemy@),
    ensures
        split_of(final(fronts)@, final(backs)@, all + dest_moves(board@, p, reach(board@, p)), enemy@),
{
    let dests = reachable(board, &p);
    proof {
        lemma_reach(board@, p);
    }
    let mut j: usize = 0;
    while j < dests.len()
        invariant
            j <= dests.len(),
            board@.black.contains(p) || board@.white.contains(p),
            dests@ == reach(board@, p),
            forall|i: int| 0 <= i < dests@.len() ==> square_in_bounds(#[trigger] dests@[i]),
            split_of(fronts@, backs@, all + dest_moves(board@, p, dests@.take(j as int)), enemy@),
        decreases dests.len() - j,
    {
        let d = dests[j];
        let ghost prev = all + dest_moves(board@, p, dests@.take(j as int));
        add_arrows(board, p, d, enemy, fronts, backs, Ghost(prev));
        assert(dests@.take(j + 1).drop_last() =~= dests@.take(j as int));
        assert(all + dest_moves(board@, p, dests@.take(j + 1)) =~= prev + arrow_moves(board@, p, d));
        j += 1;
    }
    assert(dests@.take(j as int) =~= dests@);
}

/// Every legal move of the side to move. Moves whose arrow lands next to an enemy amazon
/// come first (the later generated, the earlier), then the rest in the order generated.
/// Arrows are traced on the board with the amazon already moved, so the square it left is
/// open to them.
pub fn moves(board: &Board) -> (r: Vec<Move>)
    requires
        board@.wf(),
    ensures
        r@ == legal_moves(board@),
{
    let (pieces, enemy) = match board.player {
        Player::Black => (&board.black, &board.white),
        Player::White => (&board.white, &board.black),
    };
    let mut fronts: Vec<Move> = Vec::new();
    let mut backs: Vec<Move> = Vec::new();
    assert(rev(fronts@) + backs@ =~= ordered(Seq::<Move>::empty(), enemy@));
    let mut i: usize = 0;
    while i < pieces.len()
        invariant
            i <= pieces.len(),
            board@.wf(),
            pieces@ == board@.own(),
            enemy@ == board@.enemy(),
            split_of(fronts@, backs@, piece_moves(board@, pieces@.take(i as int)), enemy@),
        decreases pieces.len() - i,
    {
        let p = pieces[i];
        assert(square_in_bounds(pieces@[i as int]));
        assert(pieces@.contains(p));
        let ghost prev = piece_moves(board@, pieces@.take(i as int));
        add_piece(board, p, enemy, &mut fronts, &mut backs, Ghost(prev));
        assert(pieces@.take(i + 1).drop_last() =~= pieces@.take(i as int));
        i += 1;
    }
    assert(pieces@.take(i as int) =~= pieces@);
    let mut result: Vec<Move> = Vec::new();
    let mut k: usize = fronts.len();
    while k > 0
        invariant
            k <= fronts.len(),
            result@ == rev(fronts@).take(fronts.len() - k),
        decreases k,
    {
        k -= 1;
        result.push(fronts[k]);
        assert(result@ =~= rev(fronts@).take(fronts.len() - k));
    }
    let mut t: usize = 0;
    while t < backs.len()
        invariant
            t <= backs.len(),
            result@ == rev(fronts@) + backs@.take(t as int),
        decreases backs.len() - t,
    {
        result.push(backs[t]);
        t += 1;
        assert(result@ =~= rev(fronts@) + backs@.take(t as int));
    }
    assert(result@ =~= rev(fronts@) + backs@);
    result
}

/// The bound on the number of moves of one side on a well-formed board.
pub const MAX_MOVES: usize = 640000;

proof fn lemma_ordered_len(c: Seq<Move>, enemy: Seq<Square>)
    ensures
        ordered(c, enemy).len() == c.len(),
    decreases c.len(),
{
    if c.len() > 0 {
        lemma_ordered_len(c.drop_last(), enemy);
    }
}

proof fn lemma_dest_moves_len(b: BoardView, p: Square, ds: Seq<Square>)
    ensures
        dest_moves(b, p, ds).len() <= 80 * ds.len(),
    decreases ds.len(),
{
    if ds.len() > 0 {
        lemma_dest_moves_len(b, p, ds.drop_last());
        lemma_reach(half_moved(b, p, ds.last()), ds.last());
    }
}

proof fn lemma_piece_moves_len(b: BoardView, ps: Seq<Square>)
    ensures
        piece_moves(b, ps).len() <= 6400 * ps.len(),
    decreases ps.len(),
{
    if ps.len() > 0 {
        lemma_piece_moves_len(b, ps.drop_last());
        lemma_reach(b, ps.last());
        lemma_dest_moves_len(b, ps.last(), reach(b, ps.last()));
        let n = reach(b, ps.last()).len();
        assert(80 * n <= 6400) by (nonlinear_arith)
            requires
                n <= 80,
        ;
    }
}

/// A well-formed board offers each side at most `MAX_MOVES` moves.
pub proof fn lemma_moves_bound(b: BoardView)
    requires
        b.wf(),
    ensures
        legal_moves(b).len() <= MAX_MOVES,
{
    lemma_ordered_len(candidates(b), b.enemy());
    lemma_piece_moves_len(b, b.own());
    let n = b.own().len();
    assert(6400 * n <= MAX_MOVES) by (nonlinear_arith)
        requires
            n <= S * S,
    ;
}

/// A legal move: the start holds an amazon of the side to move; the destination is free,
/// on the board and reached from the start by a queen slide; the arrow square is free,
/// on the board and reached from the destination by a queen slide once the amazon stands there.
pub open spec fn is_legal(b: BoardView, m: Move) -> bool {
    &&& b.own().contains(m.0)
    &&& square_in_bounds(m.1)
    &&& !b.occupied(m.1)
    &&& reach(b, m.0).contains(m.1)
    &&& square_in_bounds(m.2)
    &&& !half_moved(b, m.0, m.1).occupied(m.2)
    &&& reach(half_moved(b, m.0, m.1), m.1).contains(m.2)
}

pub open spec fn slides(b: BoardView, m: Move) -> bool {
    reach(b, m.0).contains(m.1) && reach(half_moved(b, m.0, m.1), m.1).contains(m.2)
}

proof fn lemma_ordered_members(c: Seq<Move>, enemy: Seq<Square>, m: Move)
    requires
        ordered(c, enemy).contains(m),
    ensures
        c.contains(m),
    decreases c.len(),
{
    let r = ordered(c.drop_last(), enemy);
    let i = choose|i: int| 0 <= i < ordered(c, enemy).len() && ordered(c, enemy)[i] == m;
    if m != c.last() {
        if near_enemy(c.last().2, enemy) {
            assert(r[i - 1] == m);
        } else {
            assert(r[i] == m);
        }
        lemma_ordered_members(c.drop_last(), enemy, m);
        let j = choose|j: int| 0 <= j < c.drop_last().len() && c.drop_last()[j] == m;
        assert(c[j] == m);
    } else {
        assert(c[c.len() - 1] == m);
    }
}

proof fn lemma_dest_moves_members(b: BoardView, p: Square, ds: Seq<Square>, m: Move)
    requires
        dest_moves(b, p, ds).contains(m),
    ensures
        m.0 == p,
        ds.contains(m.1),
        reach(half_moved(b, p, m.1), m.1).contains(m.2),
    decreases ds.len(),
{
    let pre = dest_moves(b, p, ds.drop_last());
    let last = arrow_moves(b, p, ds.last());
    let i = choose|i: int| 0 <= i < dest_moves(b, p, ds).len() && dest_moves(b, p, ds)[i] == m;
    if i < pre.len() {
        assert(pre[i] == m);
        lemma_dest_moves_members(b, p, ds.drop_last(), m);
        let j = choose|j: int| 0 <= j < ds.drop_last().len() && ds.drop_last()[j] == m.1;
        assert(ds[j] == m.1);
    } else {
        assert(last[i - pre.len()] == m);
        let arrows = reach(half_moved(b, p, ds.last()), ds.last());
        assert(arrows[i - pre.len()] == m.2);
        assert(ds[ds.len() - 1] == m.1);
    }
}

proof fn lemma_piece_moves_members(b: BoardView, ps: Seq<Square>, m: Move)
    requires
        piece_moves(b, ps).contains(m),
    ensures
        ps.contains(m.0),
        slides(b, m),
    decreases ps.len(),
{
    let pre = piece_moves(b, ps.drop_last());
    let last = dest_moves(b, ps.last(), reach(b, ps.last()));
    let i = choose|i: int| 0 <= i < piece_moves(b, ps).len() && piece_moves(b, ps)[i] == m;
    if i < pre.len() {
        assert(pre[i] == m);
        lemma_piece_moves_members(b, ps.drop_last(), m);
        let j = choose|j: int| 0 <= j < ps.drop_last().len() && ps.drop_last()[j] == m.0;
        assert(ps[j] == m.0);
    } else {
        assert(last[i - pre.len()] == m);
        lemma_dest_moves_members(b, ps.last(), reach(b, ps.last()), m);
        assert(ps[ps.len() - 1] == m.0);
    }
}

/// Every move that the generator returns is legal.
pub proof fn lemma_moves_legal(b: BoardView, m: Move)
    requires
        legal_moves(b).contains(m),
    ensures
        is_legal(b, m),
{
    lemma_ordered_members(candidates(b), b.enemy(), m);
    lemma_piece_moves_members(b, b.own(), m);
    lemma_reach_member(b, m.0, m.1);
    lemma_reach_member(half_moved(b, m.0, m.1), m.1, m.2);
}

proof fn lemma_disjoint_sym(a: Seq<Square>, b: Seq<Square>)
    requires
        disjoint(a, b),
    ensures
        disjoint(b, a),
{
    assert forall|i: int| 0 <= i < b.len() implies !a.contains(#[trigger] b[i]) by {
        if a.contains(b[i]) {
            let j = choose|j: int| 0 <= j < a.len() && a[j] == b[i];
            assert(!b.contains(a[j]));
        }
    }
}

proof fn lemma_disjoint_push(a: Seq<Square>, b: Seq<Square>, x: Square)
    requires
        disjoint(a, b),
        !a.contains(x),
    ensures
        disjoint(a, b.push(x)),
{
    assert forall|i: int| 0 <= i < a.len() implies !b.push(x).contains(#[trigger] a[i]) by {
        if b.push(x).contains(a[i]) {
            let k = choose|k: int| 0 <= k < b.push(x).len() && b.push(x)[k] == a[i];
            if k < b.len() {
                assert(b.contains(a[i]));
            }
        }
    }
}

proof fn lemma_relocate_disjoint(s: Seq<Square>, from: Square, to: Square, other: Seq<Square>)
    requires
        s.contains(from),
        disjoint(s, other),
        !other.contains(to),
    ensures
        disjoint(relocate(s, from, to), other),
{
    lemma_relocate(s, from, to);
    let r = relocate(s, from, to);
    assert forall|i: int| 0 <= i < r.len() implies !other.contains(#[trigger] r[i]) by {
        assert(r.contains(r[i]));
        if r[i] != to {
            let j = choose|j: int| 0 <= j < s.len() && s[j] == r[i];
            assert(!other.contains(s[j]));
        }
    }
}

/// A legal move keeps a well-formed board well-formed.
pub proof fn lemma_apply_wf(b: BoardView, m: Move)
    requires
        b.wf(),
        is_legal(b, m),
    ensures
        applied(b, m).wf(),
{
    let a = applied(b, m);
    let h = half_moved(b, m.0, m.1);
    match b.player {
        Player::Black => {
            lemma_relocate(b.black, m.0, m.1);
            lemma_relocate_disjoint(b.black, m.0, m.1, b.white);
            lemma_relocate_disjoint(b.black, m.0, m.1, b.arrows);
            assert(h.black == a.black);
            lemma_disjoint_push(a.black, b.arrows, m.2);
            lemma_disjoint_push(b.white, b.arrows, m.2);
        },
        Player::White => {
            assert(!b.black.contains(m.0));
            lemma_relocate(b.white, m.0, m.1);
            lemma_disjoint_sym(b.black, b.white);
            lemma_relocate_disjoint(b.white, m.0, m.1, b.black);
            lemma_disjoint_sym(a.white, b.black);
            lemma_relocate_disjoint(b.white, m.0, m.1, b.arrows);
            assert(h.white == a.white);
            lemma_disjoint_push(a.white, b.arrows, m.2);
            lemma_disjoint_push(b.black, b.arrows, m.2);
        },
    }
    assert forall|i: int| 0 <= i < a.arrows.len() implies #[trigger] square_in_bounds(a.arrows[i]) by {
        if i < b.arrows.len() {
            assert(square_in_bounds(b.arrows[i]));
        }
    }
    assert forall|j: int, k: int| 0 <= j < a.arrows.len() && 0 <= k < a.arrows.len() && j != k implies a.arrows[j] != a.arrows[k] by {
        if j == b.arrows.len() {
            assert(b.arrows.contains(a.arrows[k]));
        }
        if k == b.arrows.len() {
            assert(b.arrows.contains(a.arrows[j]));
        }
    }
}

proof fn lemma_dest_moves_swap(b: BoardView, pl: Player, p: Square, ds: Seq<Square>)
    requires
        b.black.contains(p) != b.white.contains(p),
    ensures
        dest_moves(mirror(b, pl), p, ds) == dest_moves(b, p, ds),
    decreases ds.len(),
{
    if ds.len() > 0 {
        lemma_dest_moves_swap(b, pl, p, ds.drop_last());
        let d = ds.last();
        assert(half_moved(mirror(b, pl), p, d) == mirror(half_moved(b, p, d), pl));
        lemma_reach_swap(half_moved(b, p, d), pl, d);
    }
}

pub(crate) proof fn lemma_piece_moves_swap(b: BoardView, pl: Player, ps: Seq<Square>)
    requires
        forall|i: int| 0 <= i < ps.len() ==> b.black.contains(#[trigger] ps[i]) != b.white.contains(ps[i]),
    ensures
        piece_moves(mirror(b, pl), ps) == piece_moves(b, ps),
    decreases ps.len(),
{
    if ps.len() > 0 {
        lemma_piece_moves_swap(b, pl, ps.drop_last());
        let p = ps.last();
        assert(b.black.contains(ps[ps.len() - 1]) != b.white.contains(ps[ps.len() - 1]));
        lemma_reach_swap(b, pl, p);
        lemma_dest_moves_swap(b, pl, p, reach(b, p));
    }
}

} // verus!
