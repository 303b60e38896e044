//! Queen slides: the squares reachable from a square in the eight directions.

use vstd::prelude::*;

use super::board::{
    Board, BoardView, Player, S, Square, in_bounds, is_occupied, mirror, square_in_bounds,
};

verus! {

/// The free squares met walking from (x, y) in direction (dx, dy), nearest first, up to
/// `fuel` steps; the walk stops at the board's edge or at the first occupied square.
/// No ray on the board is longer than `S - 1`, so `S` steps always reach its end.
pub open spec fn ray(b: BoardView, x: int, y: int, dx: int, dy: int, fuel: nat) -> Seq<Square>
    decreases fuel,
{
    if fuel == 0 {
        Seq::empty()
    } else {
        let nx = x + dx;
        let ny = y + dy;
        if in_bounds(nx, ny) && !b.occupied((nx as usize, ny as usize)) {
            seq![(nx as usize, ny as usize)] + ray(b, nx, ny, dx, dy, (fuel - 1) as nat)
        } else {
            Seq::empty()
        }
    }
}

pub open spec fn full_ray(b: BoardView, s: Square, dx: int, dy: int) -> Seq<Square> {
    ray(b, s.0 as int, s.1 as int, dx, dy, S as nat)
}

/// Every square a queen on `s` could slide to, one direction after the other.
pub open spec fn reach(b: BoardView, s: Square) -> Seq<Square> {
    full_ray(b, s, -1, -1) + full_ray(b, s, -1, 0) + full_ray(b, s, -1, 1)
        + full_ray(b, s, 0, -1) + full_ray(b, s, 0, 1)
        + full_ray(b, s, 1, -1) + full_ray(b, s, 1, 0) + full_ray(b, s, 1, 1)
}

/// Each square of a ray is on the board and free; a ray is no longer than its fuel.
pub proof fn lemma_ray(b: BoardView, x: int, y: int, dx: int, dy: int, fuel: nat)
    ensures
        ray(b, x, y, dx, dy, fuel).len() <= fuel,
        forall|i: int|
            0 <= i < ray(b, x, y, dx, dy, fuel).len() ==> square_in_bounds(
                #[trigger] ray(b, x, y, dx, dy, fuel)[i],
            ) && !b.occupied(ray(b, x, y, dx, dy, fuel)[i]),
    decreases fuel,
{
    if fuel > 0 {
        lemma_ray(b, x + dx, y + dy, dx, dy, (fuel - 1) as nat);
        let nx = x + dx;
        let ny = y + dy;
        if in_bounds(nx, ny) && !b.occupied((nx as usize, ny as usize)) {
            let r = ray(b, x, y, dx, dy, fuel);
            let t = ray(b, nx, ny, dx, dy, (fuel - 1) as nat);
            assert forall|i: int| 0 <= i < r.len() implies square_in_bounds(#[trigger] r[i])
                && !b.occupied(r[i]) by {
                if i > 0 {
                    assert(r[i] == t[i - 1]);
                }
            }
        }
    }
}

/// Each square of `reach` is on the board and free; there are at most `8 * S` of them.
pub proof fn lemma_reach(b: BoardView, s: Square)
    ensures
        reach(b, s).len() <= 8 * S,
        forall|i: int|
            0 <= i < reach(b, s).len() ==> square_in_bounds(#[trigger] reach(b, s)[i]) && !b.occupied(
                reach(b, s)[i],
            ),
{
    let (x, y) = (s.0 as int, s.1 as int);
    lemma_ray(b, x, y, -1, -1, S as nat);
    lemma_ray(b, x, y, -1, 0, S as nat);
    lemma_ray(b, x, y, -1, 1, S as nat);
    lemma_ray(b, x, y, 0, -1, S as nat);
    lemma_ray(b, x, y, 0, 1, S as nat);
    lemma_ray(b, x, y, 1, -1, S as nat);
    lemma_ray(b, x, y, 1, 0, S as nat);
    lemma_ray(b, x, y, 1, 1, S as nat);
    let r = reach(b, s);
    assert forall|i: int| 0 <= i < r.len() implies square_in_bounds(#[trigger] r[i]) && !b.occupied(
        r[i],
    ) by {
        lemma_concat_elem(full_ray(b, s, -1, -1), full_ray(b, s, -1, 0), full_ray(b, s, -1, 1),
            full_ray(b, s, 0, -1), full_ray(b, s, 0, 1), full_ray(b, s, 1, -1),
            full_ray(b, s, 1, 0), full_ray(b, s, 1, 1), i);
    }
}

proof fn lemma_concat_elem(
    a: Seq<Square>, b: Seq<Square>, c: Seq<Square>, d: Seq<Square>,
    e: Seq<Square>, f: Seq<Square>, g: Seq<Square>, h: Seq<Square>, i: int,
)
    requires
        0 <= i < (a + b + c + d + e + f + g + h).len(),
    ensures
        a.contains((a + b + c + d + e + f + g + h)[i]) || b.contains((a + b + c + d + e + f + g + h)[i])
            || c.contains((a + b + c + d + e + f + g + h)[i]) || d.contains((a + b + c + d + e + f + g + h)[i])
            || e.contains((a + b + c + d + e + f + g + h)[i]) || f.contains((a + b + c + d + e + f + g + h)[i])
            || g.contains((a + b + c + d + e + f + g + h)[i]) || h.contains((a + b + c + d + e + f + g + h)[i]),
{
    let all = a + b + c + d + e + f + g + h;
    let mut k = i;
    if k < a.len() { assert(a[k] == all[i]); return; }
    k = k - a.len();
    if k < b.len() { assert(b[k] == all[i]); return; }
    k = k - b.len();
    if k < c.len() { assert(c[k] == all[i]); return; }
    k = k - c.len();
    if k < d.len() { assert(d[k] == all[i]); return; }
    k = k - d.len();
    if k < e.len() { assert(e[k] == all[i]); return; }
    k = k - e.len();
    if k < f.len() { assert(f[k] == all[i]); return; }
    k = k - f.len();
    if k < g.len() { assert(g[k] == all[i]); return; }
    k = k - g.len();
    assert(h[k] == all[i]);
}

/// Appends to `out` the free squares from `s` in direction (dx, dy).
fn push_ray(board: &Board, s: Square, dx: isize, dy: isize, out: &mut Vec<Square>)
    requires
        square_in_bounds(s),
        -1 <= dx <= 1,
        -1 <= dy <= 1,
    ensures
        final(out)@ == old(out)@ + full_ray(board@, s, dx as int, dy as int),
{
    let ghost b = board@;
    let ghost start = old(out)@;
    let mut x: isize = s.0 as isize;
    let mut y: isize = s.1 as isize;
    let mut fuel: usize = S;
    while fuel > 0
        invariant
            0 <= x < S,
            0 <= y < S,
            -1 <= dx <= 1,
            -1 <= dy <= 1,
            fuel <= S,
            b == board@,
            out@ + ray(b, x as int, y as int, dx as int, dy as int, fuel as nat) == start + full_ray(
                b,
                s,
                dx as int,
                dy as int,
            ),
        ensures
            out@ + ray(b, x as int, y as int, dx as int, dy as int, fuel as nat) == start + full_ray(
                b,
                s,
                dx as int,
                dy as int,
            ),
            ray(b, x as int, y as int, dx as int, dy as int, fuel as nat) =~= Seq::empty(),
        decreases fuel,
    {
        let nx = x + dx;
        let ny = y + dy;
        if !(0 <= nx && nx < S as isize && 0 <= ny && ny < S as isize) {
            assert(ray(b, x as int, y as int, dx as int, dy as int, fuel as nat) =~= Seq::empty());
            break;
        }
        let sq: Square = (nx as usize, ny as usize);
        if is_occupied(board, sq) {
            assert(ray(b, x as int, y as int, dx as int, dy as int, fuel as nat) =~= Seq::empty());
            break;
        }
        let ghost before = out@;
        out.push(sq);
        assert(ray(b, x as int, y as int, dx as int, dy as int, fuel as nat) == seq![sq] + ray(
            b, nx as int, ny as int, dx as int, dy as int, (fuel - 1) as nat));
        assert(out@ + ray(b, nx as int, ny as int, dx as int, dy as int, (fuel - 1) as nat)
            =~= before + (seq![sq] + ray(b, nx as int, ny as int, dx as int, dy as int, (fuel - 1) as nat)));
        x = nx;
        y = ny;
        fuel = fuel - 1;
    }
    assert(out@ =~= out@ + Seq::<Square>::empty());
}

/// The squares a queen on `coord` can slide to: all free squares in a straight line up to
/// the board's edge or the first occupied square, direction by direction.
pub fn reachable(board: &Board, coord: &Square) -> (r: Vec<Square>)
    requires
        square_in_bounds(*coord),
    ensures
        r@ == reach(board@, *coord),
{
    let mut squares: Vec<Square> = Vec::new();
    push_ray(board, *coord, -1, -1, &mut squares);
    push_ray(board, *coord, -1, 0, &mut squares);
    push_ray(board, *coord, -1, 1, &mut squares);
    push_ray(board, *coord, 0, -1, &mut squares);
    push_ray(board, *coord, 0, 1, &mut squares);
    push_ray(board, *coord, 1, -1, &mut squares);
    push_ray(board, *coord, 1, 0, &mut squares);
    push_ray(board, *coord, 1, 1, &mut squares);
    assert(squares@ =~= reach(board@, *coord));
    squares
}

pub(crate) proof fn lemma_reach_member(b: BoardView, s: Square, t: Square)
    requires
        reach(b, s).contains(t),
    ensures
        square_in_bounds(t),
        !b.occupied(t),
{
    lemma_reach(b, s);
    let i = choose|i: int| 0 <= i < reach(b, s).len() && reach(b, s)[i] == t;
    assert(square_in_bounds(reach(b, s)[i]));
}

proof fn lemma_ray_swap(b: BoardView, pl: Player, x: int, y: int, dx: int, dy: int, fuel: nat)
    ensures
        ray(mirror(b, pl), x, y, dx, dy, fuel) == ray(b, x, y, dx, dy, fuel),
    decreases fuel,
{
    if fuel > 0 {
        lemma_ray_swap(b, pl, x + dx, y + dy, dx, dy, (fuel - 1) as nat);
    }
}

pub(crate) proof fn lemma_reach_swap(b: BoardView, pl: Player, s: Square)
    ensures
        reach(mirror(b, pl), s) == reach(b, s),
{
    let (x, y) = (s.0 as int, s.1 as int);
    lemma_ray_swap(b, pl, x, y, -1, -1, S as nat);
    lemma_ray_swap(b, pl, x, y, -1, 0, S as nat);
    lemma_ray_swap(b, pl, x, y, -1, 1, S as nat);
    lemma_ray_swap(b, pl, x, y, 0, -1, S as nat);
    lemma_ray_swap(b, pl, x, y, 0, 1, S as nat);
    lemma_ray_swap(b, pl, x, y, 1, -1, S as nat);
    lemma_ray_swap(b, pl, x, y, 1, 0, S as nat);
    lemma_ray_swap(b, pl, x, y, 1, 1, S as nat);
}

} // verus!
