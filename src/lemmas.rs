use vstd::prelude::*;

use crate::board::{
    is_step_neighbor, lemma_shifts_present_contains, moved, neighbors_along, placed, Board, Move,
};
use crate::geometry::{leap_dirs, lemma_step_dirs_symmetric, pos_view, shift, step_dirs, Pos};
use crate::piece::Piece;

verus! {

/// Adjacency is symmetric: if `q` is a step neighbour of `p`, then `p` is a
/// step neighbour of `q`.
pub proof fn lemma_step_neighbors_symmetric(b: Board, p: (int, int), q: (int, int))
    requires
        b.wf(),
        neighbors_along(b.spec_cells(), p, step_dirs()).contains(q),
    ensures
        neighbors_along(b.spec_cells(), q, step_dirs()).contains(p),
{
    let cells = b.spec_cells();
    assert(cells.contains_key(p));
    lemma_shifts_present_contains(cells, p, step_dirs());
    lemma_shifts_present_contains(cells, q, step_dirs());
    let i = choose|i: int| 0 <= i < step_dirs().len() && shift(p, step_dirs()[i]) == q;
    lemma_step_dirs_symmetric(i);
    let j = choose|j: int|
        0 <= j < step_dirs().len() && step_dirs()[j].0 == -step_dirs()[i].0 && step_dirs()[j].1
            == -step_dirs()[i].1;
    assert(shift(q, step_dirs()[j]) == p);
}

/// A position off the board has neither step nor leap neighbours.
pub proof fn lemma_off_board_has_no_neighbors(b: Board, p: (int, int))
    requires
        b.wf(),
        !b.spec_cells().contains_key(p),
    ensures
        neighbors_along(b.spec_cells(), p, step_dirs()) == Seq::<(int, int)>::empty(),
        neighbors_along(b.spec_cells(), p, leap_dirs()) == Seq::<(int, int)>::empty(),
{
}

/// Writing at a position off the board leaves it off the board, and leaves
/// the board as it was.
pub proof fn lemma_set_off_board_is_noop(b: Board, p: (int, int), v: Piece)
    requires
        b.wf(),
        !b.spec_cells().contains_key(p),
    ensures
        !placed(b.spec_cells(), p, v).contains_key(p),
        placed(b.spec_cells(), p, v) == b.spec_cells(),
{
}

/// A step move changes only its target and the target's step neighbours:
/// each neighbour of the opposing colour takes the mover's colour, each empty
/// or same-coloured neighbour keeps its piece, and every other cell is
/// unchanged.
pub proof fn lemma_step_flips_locally(b: Board, t: Pos)
    requires
        b.wf(),
    ensures
        ({
            let c = b.spec_cells();
            let turn = b.spec_turn();
            let after = moved(c, turn, Move::Step(t));
            let tv = pos_view(t);
            &&& after.dom() == c.dom()
            &&& forall|n: (int, int)|
                #[trigger] is_step_neighbor(c, tv, n) && c[n] == turn.spec_opposite() ==> after[n]
                    == turn
            &&& forall|n: (int, int)|
                #[trigger] is_step_neighbor(c, tv, n) && (c[n] == Piece::Empty || c[n] == turn)
                    ==> after[n] == c[n]
            &&& forall|q: (int, int)|
                c.contains_key(q) && q != tv && !#[trigger] is_step_neighbor(c, tv, q) ==> after[q]
                    == c[q]
        }),
{
    let c = b.spec_cells();
    let turn = b.spec_turn();
    let tv = pos_view(t);
    let c1 = placed(c, tv, turn);
    let after = moved(c, turn, Move::Step(t));
    assert(c1.dom() =~= c.dom());
    assert(after.dom() =~= c.dom());
    assert forall|n: (int, int)| #[trigger] is_step_neighbor(c, tv, n) implies n != tv
        && is_step_neighbor(c1, tv, n) && c1[n] == c[n] by {
        let j = choose|j: int| 0 <= j < step_dirs().len() && shift(tv, step_dirs()[j]) == n;
        assert(step_dirs()[j].0 != 0 || step_dirs()[j].1 != 0);
    }
    assert forall|q: (int, int)| c.contains_key(q) && q != tv && !#[trigger] is_step_neighbor(c, tv, q)
        implies after[q] == c[q] by {
        assert(!is_step_neighbor(c1, tv, q));
    }
}

/// A leap empties its source and puts the mover's piece on its target.
pub proof fn lemma_leap_relocates(b: Board, s: Pos, t: Pos)
    requires
        b.wf(),
        b.spec_cells().contains_key(pos_view(s)),
        b.spec_cells().contains_key(pos_view(t)),
        pos_view(s) != pos_view(t),
    ensures
        moved(b.spec_cells(), b.spec_turn(), Move::Leap(s, t))[pos_view(s)] == Piece::Empty,
        moved(b.spec_cells(), b.spec_turn(), Move::Leap(s, t))[pos_view(t)] == b.spec_turn(),
{
}

} // verus!
