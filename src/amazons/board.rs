//! Positions: the board, its mathematical model, and applying moves.

use vstd::prelude::*;

verus! {

/// Side length of the (square) board.
pub const S: usize = 10;

/// A square as (column, row).
pub type Square = (usize, usize);

/// Start square, destination square, arrow square.
pub type Move = (Square, Square, Square);

#[derive(Clone, Copy, Debug, PartialEq, Eq, Structural)]
pub enum Player {
    Black,
    White,
}

/// A position: the squares of each side's amazons, the burned squares and the side to move.
/// Each list is a set, kept free of repeats (see `BoardView::wf`).
#[derive(Clone, Debug)]
pub struct Board {
    pub black: Vec<Square>,
    pub white: Vec<Square>,
    pub arrows: Vec<Square>,
    /// Player whose turn it is to move.
    pub player: Player,
}

/// Mathematical model of a board.
pub struct BoardView {
    pub black: Seq<Square>,
    pub white: Seq<Square>,
    pub arrows: Seq<Square>,
    pub player: Player,
}

/// The move placed where a search node has no move to report.
pub open spec fn placeholder() -> Move {
    ((0, 0), (0, 0), (0, 0))
}

pub open spec fn in_bounds(x: int, y: int) -> bool {
    0 <= x < S && 0 <= y < S
}

pub open spec fn square_in_bounds(s: Square) -> bool {
    in_bounds(s.0 as int, s.1 as int)
}

pub open spec fn all_in_bounds(s: Seq<Square>) -> bool {
    forall|i: int| 0 <= i < s.len() ==> #[trigger] square_in_bounds(s[i])
}

pub open spec fn disjoint(a: Seq<Square>, b: Seq<Square>) -> bool {
    forall|i: int| 0 <= i < a.len() ==> !b.contains(#[trigger] a[i])
}

impl BoardView {
    pub open spec fn occupied(self, s: Square) -> bool {
        self.black.contains(s) || self.white.contains(s) || self.arrows.contains(s)
    }

    /// The amazons of the side to move.
    pub open spec fn own(self) -> Seq<Square> {
        match self.player {
            Player::Black => self.black,
            Player::White => self.white,
        }
    }

    /// The amazons of the side not to move.
    pub open spec fn enemy(self) -> Seq<Square> {
        match self.player {
            Player::Black => self.white,
            Player::White => self.black,
        }
    }

    /// Every square on the board, the three sets pairwise disjoint and free of repeats,
    /// and no more amazons per side than there are squares.
    pub open spec fn wf(self) -> bool {
        &&& all_in_bounds(self.black)
        &&& all_in_bounds(self.white)
        &&& all_in_bounds(self.arrows)
        &&& self.black.no_duplicates()
        &&& self.white.no_duplicates()
        &&& self.arrows.no_duplicates()
        &&& disjoint(self.black, self.white)
        &&& disjoint(self.black, self.arrows)
        &&& disjoint(self.white, self.arrows)
        &&& self.black.len() <= S * S
        &&& self.white.len() <= S * S
    }

    pub open spec fn with_player(self, p: Player) -> BoardView {
        BoardView { player: p, ..self }
    }
}

impl View for Board {
    type V = BoardView;

    open spec fn view(&self) -> BoardView {
        BoardView {
            black: self.black@,
            white: self.white@,
            arrows: self.arrows@,
            player: self.player,
        }
    }
}

/// Replaces every occurrence of `from` by `to`.
pub open spec fn relocate(s: Seq<Square>, from: Square, to: Square) -> Seq<Square> {
    s.map_values(|q: Square| if q == from { to } else { q })
}

fn same_square(a: Square, b: Square) -> (r: bool)
    ensures
        r == (a == b),
{
    a.0 == b.0 && a.1 == b.1
}

fn contains_square(v: &Vec<Square>, s: Square) -> (r: bool)
    ensures
        r == v@.contains(s),
{
    let mut i: usize = 0;
    while i < v.len()
        invariant
            i <= v.len(),
            forall|j: int| 0 <= j < i ==> v@[j] != s,
        decreases v.len() - i,
    {
        if same_square(v[i], s) {
            return true;
        }
        i += 1;
    }
    false
}

fn copy_squares(v: &Vec<Square>) -> (r: Vec<Square>)
    ensures
        r@ == v@,
{
    let mut r: Vec<Square> = Vec::new();
    let mut i: usize = 0;
    while i < v.len()
        invariant
            i <= v.len(),
            r@ == v@.take(i as int),
        decreases v.len() - i,
    {
        r.push(v[i]);
        i += 1;
        assert(r@ =~= v@.take(i as int));
    }
    assert(r@ =~= v@);
    r
}

pub(crate) fn copy_board(b: &Board) -> (r: Board)
    ensures
        r@ == b@,
{
    Board {
        black: copy_squares(&b.black),
        white: copy_squares(&b.white),
        arrows: copy_squares(&b.arrows),
        player: b.player,
    }
}

fn relocate_in(v: &mut Vec<Square>, from: Square, to: Square)
    ensures
        final(v)@ == relocate(old(v)@, from, to),
{
    let ghost orig = v@;
    let mut i: usize = 0;
    while i < v.len()
        invariant
            i <= v.len(),
            v@.len() == orig.len(),
            forall|j: int| 0 <= j < i ==> v@[j] == (if orig[j] == from { to } else { orig[j] }),
            forall|j: int| i <= j < v@.len() ==> v@[j] == orig[j],
        decreases v.len() - i,
    {
        if same_square(v[i], from) {
            v.set(i, to);
        }
        i += 1;
    }
    assert(v@ =~= relocate(orig, from, to));
}

pub(crate) fn is_occupied(board: &Board, s: Square) -> (r: bool)
    ensures
        r == board@.occupied(s),
{
    contains_square(&board.arrows, s) || contains_square(&board.white, s) || contains_square(
        &board.black,
        s,
    )
}

fn squares_in_bounds(v: &Vec<Square>) -> (r: bool)
    ensures
        r == all_in_bounds(v@),
{
    let mut i: usize = 0;
    while i < v.len()
        invariant
            i <= v.len(),
            forall|j: int| 0 <= j < i ==> #[trigger] square_in_bounds(v@[j]),
        decreases v.len() - i,
    {
        if !(v[i].0 < S && v[i].1 < S) {
            assert(!square_in_bounds(v@[i as int]));
            return false;
        }
        i += 1;
    }
    true
}

fn distinct(v: &Vec<Square>) -> (r: bool)
    ensures
        r == v@.no_duplicates(),
{
    let mut i: usize = 0;
    while i < v.len()
        invariant
            i <= v.len(),
            forall|j: int, k: int| 0 <= j < k < i ==> v@[j] != v@[k],
        decreases v.len() - i,
    {
        let mut j: usize = 0;
        while j < i
            invariant
                j <= i < v.len(),
                forall|k: int| 0 <= k < j ==> v@[k] != v@[i as int],
            decreases i - j,
        {
            if same_square(v[j], v[i]) {
                return false;
            }
            j += 1;
        }
        i += 1;
    }
    true
}

fn apart(a: &Vec<Square>, b: &Vec<Square>) -> (r: bool)
    ensures
        r == disjoint(a@, b@),
{
    let mut i: usize = 0;
    while i < a.len()
        invariant
            i <= a.len(),
            forall|j: int| 0 <= j < i ==> !b@.contains(#[trigger] a@[j]),
        decreases a.len() - i,
    {
        if contains_square(b, a[i]) {
            return false;
        }
        i += 1;
    }
    true
}

/// Whether `b` is a well-formed position: every square on the board, no square twice in
/// a set, the amazons of each side and the arrows pairwise apart, and at most `S * S`
/// amazons a side.
pub fn well_formed(b: &Board) -> (r: bool)
    ensures
        r == b@.wf(),
{
    squares_in_bounds(&b.black) && squares_in_bounds(&b.white) && squares_in_bounds(&b.arrows)
        && distinct(&b.black) && distinct(&b.white) && distinct(&b.arrows)
        && apart(&b.black, &b.white) && apart(&b.black, &b.arrows) && apart(&b.white, &b.arrows)
        && b.black.len() <= S * S && b.white.len() <= S * S
}

/// The condition under which a move cannot be applied.
#[derive(Clone, Copy, Debug, PartialEq, Eq, Structural)]
pub enum MoveError {
    /// The start square holds no amazon of the side to move.
    InvalidMove,
}

/// The board after `m`: the mover's amazon goes from start to destination, the arrow
/// square is burned and the turn passes.
pub open spec fn applied(b: BoardView, m: Move) -> BoardView {
    match b.player {
        Player::Black => BoardView {
            black: relocate(b.black, m.0, m.1),
            white: b.white,
            arrows: b.arrows.push(m.2),
            player: Player::White,
        },
        Player::White => BoardView {
            black: b.black,
            white: relocate(b.white, m.0, m.1),
            arrows: b.arrows.push(m.2),
            player: Player::Black,
        },
    }
}

/// The board with the amazon on `src` moved to `dest`, in its own side's set, no arrow
/// shot and the turn unchanged.
pub open spec fn half_moved(b: BoardView, src: Square, dest: Square) -> BoardView {
    if b.black.contains(src) {
        BoardView { black: relocate(b.black, src, dest), ..b }
    } else {
        BoardView { white: relocate(b.white, src, dest), ..b }
    }
}

pub open spec fn is_adjacent(a: Square, b: Square) -> bool {
    -1 <= a.0 - b.0 <= 1 && -1 <= a.1 - b.1 <= 1
}

fn close(a: usize, b: usize) -> (r: bool)
    ensures
        r == (-1 <= a - b <= 1),
{
    if a <= b {
        b - a <= 1
    } else {
        a - b <= 1
    }
}

/// Whether the two squares are equal or neighbours (Chebyshev distance at most 1).
pub fn adjacent(sq1: &Square, sq2: &Square) -> (r: bool)
    ensures
        r == is_adjacent(*sq1, *sq2),
{
    close(sq1.0, sq2.0) && close(sq1.1, sq2.1)
}

/// Applies `m` to `board`, which is changed only on success.
pub fn apply_move(board: &mut Board, m: &Move) -> (r: Result<(), MoveError>)
    ensures
        r is Ok <==> old(board)@.own().contains(m.0),
        r is Ok ==> final(board)@ == applied(old(board)@, *m),
        r is Err ==> final(board)@ == old(board)@,
{
    let (src, dest, arrow) = *m;
    match board.player {
        Player::Black => {
            if !contains_square(&board.black, src) {
                return Err(MoveError::InvalidMove);
            }
            relocate_in(&mut board.black, src, dest);
            board.player = Player::White;
        },
        Player::White => {
            if !contains_square(&board.white, src) {
                return Err(MoveError::InvalidMove);
            }
            relocate_in(&mut board.white, src, dest);
            board.player = Player::Black;
        },
    }
    board.arrows.push(arrow);
    Ok(())
}

/// The board after `m`, leaving `board` as it was.
pub fn test_move(board: &Board, m: &Move) -> (r: Result<Board, MoveError>)
    ensures
        r is Ok <==> board@.own().contains(m.0),
        r matches Ok(nb) ==> nb@ == applied(board@, *m),
{
    let mut new_board = copy_board(board);
    match apply_move(&mut new_board, m) {
        Ok(()) => Ok(new_board),
        Err(e) => Err(e),
    }
}

/// The board with the amazon on `src` moved to `dest` and nothing else changed: no arrow,
/// same side to move. The amazon stays with its own side.
pub fn test_half_move(board: &Board, src: &Square, dest: &Square) -> (r: Result<Board, MoveError>)
    ensures
        r is Ok <==> (board@.black.contains(*src) || board@.white.contains(*src)),
        r matches Ok(nb) ==> nb@ == half_moved(board@, *src, *dest),
{
    let mut new_board = copy_board(board);
    if contains_square(&new_board.black, *src) {
        relocate_in(&mut new_board.black, *src, *dest);
    } else if contains_square(&new_board.white, *src) {
        relocate_in(&mut new_board.white, *src, *dest);
    } else {
        return Err(MoveError::InvalidMove);
    }
    Ok(new_board)
}

pub open spec fn start_view() -> BoardView {
    BoardView {
        black: seq![(3, 0), (6, 0), (0, 3), (9, 3)],
        white: seq![(0, 6), (9, 6), (3, 9), (6, 9)],
        arrows: Seq::empty(),
        player: Player::White,
    }
}

/// The canonical opening position: four amazons a side, no arrows, White to move.
pub fn starting_board() -> (r: Board)
    ensures
        r@ == start_view(),
        r@.wf(),
{
    let mut b = Board {
        black: Vec::new(),
        white: Vec::new(),
        arrows: Vec::new(),
        player: Player::White,
    };
    b.black.push((3, 0));
    b.black.push((6, 0));
    b.black.push((0, 3));
    b.black.push((9, 3));
    b.white.push((0, 6));
    b.white.push((9, 6));
    b.white.push((3, 9));
    b.white.push((6, 9));
    assert(b@.black =~= start_view().black);
    assert(b@.white =~= start_view().white);
    assert(b@.arrows =~= start_view().arrows);
    b
}

pub(crate) proof fn lemma_relocate(s: Seq<Square>, from: Square, to: Square)
    requires
        s.contains(from),
    ensures
        relocate(s, from, to).len() == s.len(),
        relocate(s, from, to).contains(to),
        forall|q: Square| q != from && s.contains(q) ==> relocate(s, from, to).contains(q),
        forall|q: Square| #[trigger] relocate(s, from, to).contains(q) ==> q == to || (q != from && s.contains(q)),
        s.no_duplicates() && !s.contains(to) ==> relocate(s, from, to).no_duplicates(),
        all_in_bounds(s) && square_in_bounds(to) ==> all_in_bounds(relocate(s, from, to)),
{
    let r = relocate(s, from, to);
    let i = choose|i: int| 0 <= i < s.len() && s[i] == from;
    assert(r[i] == to);
    assert forall|q: Square| q != from && s.contains(q) implies r.contains(q) by {
        let j = choose|j: int| 0 <= j < s.len() && s[j] == q;
        assert(r[j] == q);
    }
    assert forall|q: Square| #[trigger] r.contains(q) implies q == to || (q != from && s.contains(q)) by {
        let j = choose|j: int| 0 <= j < r.len() && r[j] == q;
        if q != to {
            assert(s[j] == q);
        }
    }
    if all_in_bounds(s) && square_in_bounds(to) {
        assert forall|j: int| 0 <= j < r.len() implies #[trigger] square_in_bounds(r[j]) by {
            assert(square_in_bounds(s[j]));
        }
    }
    if s.no_duplicates() && !s.contains(to) {
        assert forall|j: int, k: int| 0 <= j < r.len() && 0 <= k < r.len() && j != k implies r[j] != r[k] by {
            if s[j] == from {
                assert(s[k] != from);
            }
            if s[k] == from {
                assert(s[j] != from);
            }
        }
    }
}

/// Applying one move to one board always gives one result: the board after `test_move`
/// is a function of the board and the move alone.
pub proof fn lemma_apply_deterministic(b1: BoardView, b2: BoardView, m: Move)
    requires
        b1 == b2,
    ensures
        applied(b1, m) == applied(b2, m),
{
}

/// The board with the two sides' amazons exchanged.
pub open spec fn swap_sides(b: BoardView) -> BoardView {
    mirror(b, b.player)
}

/// `b` with the sides' amazons exchanged and `pl` to move.
pub open spec fn mirror(b: BoardView, pl: Player) -> BoardView {
    BoardView { black: b.white, white: b.black, arrows: b.arrows, player: pl }
}

} // verus!
