use vstd::prelude::*;

use crate::geometry::{
    leap_directions, leap_dirs, pos_seq_view, pos_view, shift, step_directions, step_dirs, Dir,
    Pos,
};
use crate::piece::Piece;

verus! {

/// One cell of the board: its position and what it holds.
pub type Cell = (Pos, Piece);

/// A move: place the mover's piece on `target`, or lift a piece from
/// `source` and place the mover's piece on `target`.
pub enum Move {
    Step(Pos),
    Leap(Pos, Pos),
}

/// The cell on which a move places a piece.
pub open spec fn move_target(mv: Move) -> (int, int) {
    match mv {
        Move::Step(t) => pos_view(t),
        Move::Leap(_, t) => pos_view(t),
    }
}

/// The position of a cell, with mathematical coordinates.
pub open spec fn cell_key(c: Cell) -> (int, int) {
    pos_view(c.0)
}

/// No two cells of the list share a position.
pub open spec fn keys_unique(s: Seq<Cell>) -> bool {
    forall|i: int, j: int|
        0 <= i < s.len() && 0 <= j < s.len() && i != j ==> #[trigger] cell_key(s[i])
            != #[trigger] cell_key(s[j])
}

/// The list of cells read as a map from position to piece.
pub open spec fn cells_map(s: Seq<Cell>) -> Map<(int, int), Piece> {
    Map::new(
        |q: (int, int)| exists|i: int| 0 <= i < s.len() && cell_key(s[i]) == q,
        |q: (int, int)| s[choose|i: int| 0 <= i < s.len() && cell_key(s[i]) == q].1,
    )
}

/// The board after writing `v` at `p`: a position that is not a cell is left out.
pub open spec fn placed(cells: Map<(int, int), Piece>, p: (int, int), v: Piece) -> Map<
    (int, int),
    Piece,
> {
    if cells.contains_key(p) {
        cells.insert(p, v)
    } else {
        cells
    }
}

/// The cells reached from `p` along `dirs`, in the order of `dirs`; none where
/// `p` is not a cell.
pub open spec fn neighbors_along(
    cells: Map<(int, int), Piece>,
    p: (int, int),
    dirs: Seq<Dir>,
) -> Seq<(int, int)> {
    if cells.contains_key(p) {
        shifts_present(cells, p, dirs)
    } else {
        Seq::empty()
    }
}

/// The positions `p + d` for `d` in `dirs` that are cells, in order.
pub open spec fn shifts_present(
    cells: Map<(int, int), Piece>,
    p: (int, int),
    dirs: Seq<Dir>,
) -> Seq<(int, int)>
    decreases dirs.len(),
{
    if dirs.len() == 0 {
        Seq::empty()
    } else {
        let rest = shifts_present(cells, p, dirs.drop_last());
        let q = shift(p, dirs.last());
        if cells.contains_key(q) {
            rest.push(q)
        } else {
            rest
        }
    }
}

/// `q` is a cell one step from the cell `p`.
pub open spec fn is_step_neighbor(cells: Map<(int, int), Piece>, p: (int, int), q: (int, int)) -> bool {
    &&& cells.contains_key(p)
    &&& cells.contains_key(q)
    &&& exists|j: int| 0 <= j < step_dirs().len() && shift(p, step_dirs()[j]) == q
}

/// The board after the mover `turn` flips every opposing piece one step from `p`.
pub open spec fn flipped(cells: Map<(int, int), Piece>, p: (int, int), turn: Piece) -> Map<
    (int, int),
    Piece,
> {
    Map::new(
        |q: (int, int)| cells.contains_key(q),
        |q: (int, int)|
            if is_step_neighbor(cells, p, q) && cells[q] == turn.spec_opposite() {
                turn
            } else {
                cells[q]
            },
    )
}

/// The board after `turn` plays `mv`, before the turn passes.
pub open spec fn moved(cells: Map<(int, int), Piece>, turn: Piece, mv: Move) -> Map<
    (int, int),
    Piece,
> {
    match mv {
        Move::Step(t) => flipped(placed(cells, pos_view(t), turn), pos_view(t), turn),
        Move::Leap(s, t) => flipped(
            placed(placed(cells, pos_view(s), Piece::Empty), pos_view(t), turn),
            pos_view(t),
            turn,
        ),
    }
}

/// The coordinate of `q` along one axis: `y` where `vertical`, else `x`.
pub open spec fn coord(q: (int, int), vertical: bool) -> int {
    if vertical {
        q.1
    } else {
        q.0
    }
}

/// `r` is the least (or, where `greatest`, the largest) coordinate along the
/// axis over all cells.
pub open spec fn is_extreme(
    cells: Map<(int, int), Piece>,
    r: int,
    vertical: bool,
    greatest: bool,
) -> bool {
    &&& exists|q: (int, int)| cells.contains_key(q) && coord(q, vertical) == r
    &&& forall|q: (int, int)|
        cells.contains_key(q) ==> if greatest {
            coord(q, vertical) <= r
        } else {
            r <= coord(q, vertical)
        }
}

/// A map has at most one least (or largest) coordinate along an axis.
pub proof fn lemma_extreme_unique(
    cells: Map<(int, int), Piece>,
    a: int,
    b: int,
    vertical: bool,
    greatest: bool,
)
    requires
        is_extreme(cells, a, vertical, greatest),
    ensures
        is_extreme(cells, b, vertical, greatest) <==> a == b,
{
    if is_extreme(cells, b, vertical, greatest) {
        let qa = choose|q: (int, int)| cells.contains_key(q) && coord(q, vertical) == a;
        let qb = choose|q: (int, int)| cells.contains_key(q) && coord(q, vertical) == b;
        assert(cells.contains_key(qa) && cells.contains_key(qb));
    }
}

/// How a position is drawn: blank off the board, else `-`, `X` or `O`.
pub open spec fn drawn(cells: Map<(int, int), Piece>, q: (int, int)) -> char {
    if !cells.contains_key(q) {
        ' '
    } else {
        match cells[q] {
            Piece::Empty => '-',
            Piece::Black => 'X',
            Piece::White => 'O',
        }
    }
}

/// Row `y` of the drawing, from column `lo` to column `hi` inclusive.
pub open spec fn drawn_row(cells: Map<(int, int), Piece>, y: int, lo: int, hi: int) -> Seq<char> {
    Seq::new((hi - lo + 1) as nat, |i: int| drawn(cells, (lo + i, y)))
}

/// The board: a fixed set of cells, each holding a piece, and the player to move.
pub struct Board {
    cells: Vec<Cell>,
    turn: Piece,
}

impl Board {
    /// What each cell holds, by position; a position absent here is off the board.
    pub closed spec fn spec_cells(&self) -> Map<(int, int), Piece> {
        cells_map(self.cells@)
    }

    /// The player to move.
    pub closed spec fn spec_turn(&self) -> Piece {
        self.turn
    }

    /// Cells have distinct positions, there is at least one, and the mover is
    /// Black or White.
    pub closed spec fn wf(&self) -> bool {
        &&& keys_unique(self.cells@)
        &&& self.cells@.len() > 0
        &&& self.turn != Piece::Empty
    }

    pub(crate) fn from_cells(cells: Vec<Cell>) -> (r: Board)
        requires
            keys_unique(cells@),
            cells@.len() > 0,
        ensures
            r.wf(),
            r.spec_cells() == cells_map(cells@),
            r.spec_turn() == Piece::Black,
    {
        Board { cells, turn: Piece::Black }
    }

    /// The player to move.
    pub fn turn(&self) -> (r: Piece)
        ensures
            r == self.spec_turn(),
    {
        self.turn
    }

    fn index_of(&self, pos: &Pos) -> (r: Option<usize>)
        requires
            self.wf(),
        ensures
            match r {
                Some(i) => i < self.cells@.len() && cell_key(self.cells@[i as int]) == pos_view(*pos),
                None => !self.spec_cells().contains_key(pos_view(*pos)),
            },
    {
        let mut i: usize = 0;
        while i < self.cells.len()
            invariant
                i <= self.cells@.len(),
                forall|k: int| 0 <= k < i ==> cell_key(self.cells@[k]) != pos_view(*pos),
            decreases self.cells@.len() - i,
        {
            if self.cells[i].0.0 == pos.0 && self.cells[i].0.1 == pos.1 {
                return Some(i);
            }
            i = i + 1;
        }
        None
    }

    /// The piece at `pos`, or `None` where `pos` is not a cell of the board.
    pub fn at(&self, pos: &Pos) -> (r: Option<&Piece>)
        requires
            self.wf(),
        ensures
            match r {
                Some(v) => self.spec_cells().contains_key(pos_view(*pos)) && *v
                    == self.spec_cells()[pos_view(*pos)],
                None => !self.spec_cells().contains_key(pos_view(*pos)),
            },
    {
        match self.index_of(pos) {
            Some(i) => {
                proof {
                    lemma_cells_lookup(self.cells@, i as int);
                }
                Some(&self.cells[i].1)
            },
            None => None,
        }
    }

    /// Writes `piece` at `pos` where `pos` is a cell; elsewhere does nothing.
    pub fn set(&mut self, pos: &Pos, piece: Piece)
        requires
            old(self).wf(),
        ensures
            final(self).wf(),
            final(self).spec_cells() == placed(old(self).spec_cells(), pos_view(*pos), piece),
            final(self).spec_turn() == old(self).spec_turn(),
    {
        match self.index_of(pos) {
            Some(i) => {
                proof {
                    lemma_cells_lookup(self.cells@, i as int);
                    lemma_cells_update(self.cells@, i as int, piece);
                }
                let p = self.cells[i].0;
                self.cells.set(i, (p, piece));
            },
            None => {},
        }
    }

    fn extreme(&self, vertical: bool, greatest: bool) -> (r: i32)
        requires
            self.wf(),
        ensures
            is_extreme(self.spec_cells(), r as int, vertical, greatest),
    {
        let ghost s = self.cells@;
        let first = self.cells[0].0;
        let mut m: i32 = if vertical { first.1 } else { first.0 };
        let mut i: usize = 1;
        while i < self.cells.len()
            invariant
                s == self.cells@,
                1 <= i <= s.len(),
                exists|j: int| 0 <= j < i && coord(cell_key(s[j]), vertical) == m,
                forall|j: int|
                    0 <= j < i ==> if greatest {
                        coord(#[trigger] cell_key(s[j]), vertical) <= m
                    } else {
                        m <= coord(#[trigger] cell_key(s[j]), vertical)
                    },
            decreases s.len() - i,
        {
            let p = self.cells[i].0;
            let c: i32 = if vertical { p.1 } else { p.0 };
            if (greatest && c > m) || (!greatest && c < m) {
                m = c;
            }
            i = i + 1;
        }
        proof {
            let j = choose|j: int| 0 <= j < s.len() && coord(cell_key(s[j]), vertical) == m;
            assert(cells_map(s).contains_key(cell_key(s[j])));
            assert forall|q: (int, int)| cells_map(s).contains_key(q) implies if greatest {
                coord(q, vertical) <= m
            } else {
                m <= coord(q, vertical)
            } by {
                let k = choose|k: int| 0 <= k < s.len() && cell_key(s[k]) == q;
                assert(cell_key(s[k]) == q);
            }
        }
        m
    }

    /// The least x over all cells.
    pub fn min_x(&self) -> (r: i32)
        requires
            self.wf(),
        ensures
            is_extreme(self.spec_cells(), r as int, false, false),
    {
        self.extreme(false, false)
    }

    /// The largest x over all cells.
    pub fn max_x(&self) -> (r: i32)
        requires
            self.wf(),
        ensures
            is_extreme(self.spec_cells(), r as int, false, true),
    {
        self.extreme(false, true)
    }

    /// The least y over all cells.
    pub fn min_y(&self) -> (r: i32)
        requires
            self.wf(),
        ensures
            is_extreme(self.spec_cells(), r as int, true, false),
    {
        self.extreme(true, false)
    }

    /// The largest y over all cells.
    pub fn max_y(&self) -> (r: i32)
        requires
            self.wf(),
        ensures
            is_extreme(self.spec_cells(), r as int, true, true),
    {
        self.extreme(true, true)
    }

    /// The extent of the board: `(min_x, max_x, min_y, max_y)`.
    pub fn bounds(&self) -> (r: (i32, i32, i32, i32))
        requires
            self.wf(),
        ensures
            is_extreme(self.spec_cells(), r.0 as int, false, false),
            is_extreme(self.spec_cells(), r.1 as int, false, true),
            is_extreme(self.spec_cells(), r.2 as int, true, false),
            is_extreme(self.spec_cells(), r.3 as int, true, true),
    {
        (self.min_x(), self.max_x(), self.min_y(), self.max_y())
    }

    /// The board drawn as text, one row for each y from the least to the
    /// largest, each spanning the least to the largest x.
    pub fn render(&self) -> (r: Vec<Vec<char>>)
        requires
            self.wf(),
        ensures
            exists|x0: int, x1: int, y0: int, y1: int|
                {
                    &&& is_extreme(self.spec_cells(), x0, false, false)
                    &&& is_extreme(self.spec_cells(), x1, false, true)
                    &&& is_extreme(self.spec_cells(), y0, true, false)
                    &&& is_extreme(self.spec_cells(), y1, true, true)
                    &&& r@.len() == y1 - y0 + 1
                    &&& forall|i: int|
                        0 <= i < r@.len() ==> #[trigger] r@[i]@ == drawn_row(
                            self.spec_cells(),
                            y0 + i,
                            x0,
                            x1,
                        )
                },
    {
        let (min_x, max_x, min_y, max_y) = self.bounds();
        let ghost cells = self.spec_cells();
        proof {
            let q = choose|q: (int, int)| cells.contains_key(q) && coord(q, false) == min_x;
            assert(cells.contains_key(q));
            let q = choose|q: (int, int)| cells.contains_key(q) && coord(q, true) == min_y;
            assert(cells.contains_key(q));
        }
        let mut rows: Vec<Vec<char>> = Vec::new();
        let mut y: i64 = min_y as i64;
        while y <= max_y as i64
            invariant
                self.wf(),
                cells == self.spec_cells(),
                min_x <= max_x,
                min_y <= y <= max_y as int + 1,
                rows@.len() == y - min_y,
                forall|i: int|
                    0 <= i < rows@.len() ==> #[trigger] rows@[i]@ == drawn_row(
                        cells,
                        min_y + i,
                        min_x as int,
                        max_x as int,
                    ),
            decreases max_y + 1 - y,
        {
            let mut row: Vec<char> = Vec::new();
            let mut x: i64 = min_x as i64;
            while x <= max_x as i64
                invariant
                    self.wf(),
                    cells == self.spec_cells(),
                    min_x <= x <= max_x as int + 1,
                    min_y <= y <= max_y,
                    row@.len() == x - min_x,
                    forall|i: int|
                        0 <= i < row@.len() ==> row@[i] == drawn(cells, (min_x + i, y as int)),
                decreases max_x + 1 - x,
            {
                let pos: Pos = (x as i32, y as i32);
                let c = match self.at(&pos) {
                    None => ' ',
                    Some(Piece::Empty) => '-',
                    Some(Piece::Black) => 'X',
                    Some(Piece::White) => 'O',
                };
                row.push(c);
                x = x + 1;
            }
            assert(row@ =~= drawn_row(cells, y as int, min_x as int, max_x as int));
            rows.push(row);
            y = y + 1;
        }
        rows
    }

    /// The cells reached from `pos` along `directions`, in the order of
    /// `directions`; empty where `pos` is not a cell.
    pub fn _neighbors(&self, pos: &Pos, directions: &[Dir]) -> (r: Vec<Pos>)
        requires
            self.wf(),
        ensures
            pos_seq_view(r@) == neighbors_along(self.spec_cells(), pos_view(*pos), directions@),
    {
        let ghost cells = self.spec_cells();
        let ghost p = pos_view(*pos);
        match self.at(pos) {
            None => Vec::new(),
            Some(_) => {
                let mut result: Vec<Pos> = Vec::new();
                let mut k: usize = 0;
                assert(directions@.subrange(0, 0) =~= Seq::<Dir>::empty());
                assert(pos_seq_view(result@) =~= Seq::<(int, int)>::empty());
                while k < directions.len()
                    invariant
                        self.wf(),
                        cells == self.spec_cells(),
                        p == pos_view(*pos),
                        cells.contains_key(p),
                        k <= directions@.len(),
                        pos_seq_view(result@) == shifts_present(
                            cells,
                            p,
                            directions@.subrange(0, k as int),
                        ),
                    decreases directions@.len() - k,
                {
                    let d = directions[k];
                    let ghost q = shift(p, d);
                    let ghost before = result@;
                    assert(directions@.subrange(0, k + 1).drop_last() =~= directions@.subrange(
                        0,
                        k as int,
                    ));
                    let nx: i64 = pos.0 as i64 + d.0 as i64;
                    let ny: i64 = pos.1 as i64 + d.1 as i64;
                    if i32::MIN as i64 <= nx && nx <= i32::MAX as i64 && i32::MIN as i64 <= ny && ny
                        <= i32::MAX as i64 {
                        let n: Pos = (nx as i32, ny as i32);
                        if self.at(&n).is_some() {
                            result.push(n);
                            assert(pos_seq_view(result@) =~= pos_seq_view(before).push(q));
                        }
                    } else {
                        proof { lemma_cells_in_range(self.cells@, q); }
                    }
                    k = k + 1;
                }
                assert(directions@.subrange(0, directions@.len() as int) =~= directions@);
                result
            },
        }
    }

    /// The cells one step from `pos`, in the order E, NE, NW, W, SW, SE.
    pub fn step_neighbors(&self, pos: &Pos) -> (r: Vec<Pos>)
        requires
            self.wf(),
        ensures
            pos_seq_view(r@) == neighbors_along(self.spec_cells(), pos_view(*pos), step_dirs()),
    {
        let dirs = step_directions();
        self._neighbors(pos, dirs.as_slice())
    }

    /// The cells one leap from `pos`, in the order E, ENE, NE, N, NW, WNW, W,
    /// WSW, SW, S, SE, ESE.
    pub fn leap_neighbors(&self, pos: &Pos) -> (r: Vec<Pos>)
        requires
            self.wf(),
        ensures
            pos_seq_view(r@) == neighbors_along(self.spec_cells(), pos_view(*pos), leap_dirs()),
    {
        let dirs = leap_directions();
        self._neighbors(pos, dirs.as_slice())
    }

    /// Turns every opposing piece one step from `pos` into the mover's colour.
    pub fn flip_neighbors(&mut self, pos: &Pos)
        requires
            old(self).wf(),
        ensures
            final(self).wf(),
            final(self).spec_cells() == flipped(
                old(self).spec_cells(),
                pos_view(*pos),
                old(self).spec_turn(),
            ),
            final(self).spec_turn() == old(self).spec_turn(),
    {
        let ghost c0 = self.spec_cells();
        let ghost p = pos_view(*pos);
        let turn = self.turn;
        let opp = turn.opposite();
        let ns = self.step_neighbors(pos);
        let ghost nsv = pos_seq_view(ns@);
        let mut k: usize = 0;
        while k < ns.len()
            invariant
                self.wf(),
                self.turn == turn,
                turn != Piece::Empty,
                opp == turn.spec_opposite(),
                nsv == pos_seq_view(ns@),
                k <= ns@.len(),
                self.spec_cells().dom() == c0.dom(),
                forall|q: (int, int)|
                    c0.contains_key(q) ==> #[trigger] self.spec_cells()[q] == if nsv.subrange(
                        0,
                        k as int,
                    ).contains(q) && c0[q] == opp {
                        turn
                    } else {
                        c0[q]
                    },
            decreases ns@.len() - k,
        {
            let n = ns[k];
            let ghost nv = pos_view(n);
            assert(nsv[k as int] == nv);
            assert(nsv.subrange(0, k + 1) =~= nsv.subrange(0, k as int).push(nv));
            let hit = match self.at(&n) {
                Some(v) => *v == opp,
                None => false,
            };
            let ghost before = self.spec_cells();
            if hit {
                self.set(&n, turn);
            }
            assert forall|q: (int, int)| c0.contains_key(q) implies #[trigger] self.spec_cells()[q]
                == if nsv.subrange(0, k + 1).contains(q) && c0[q] == opp {
                turn
            } else {
                c0[q]
            } by {
                lemma_push_contains(nsv.subrange(0, k as int), nv, q);
                assert(before[q] == if nsv.subrange(0, k as int).contains(q) && c0[q] == opp {
                    turn
                } else {
                    c0[q]
                });
            }
            k = k + 1;
        }
        proof {
            assert(nsv.subrange(0, ns@.len() as int) =~= nsv);
            if c0.contains_key(p) {
                lemma_shifts_present_contains(c0, p, step_dirs());
            }
            assert(self.spec_cells() =~= flipped(c0, p, turn));
        }
    }

    /// Plays `mv` for the player to move: places their piece (after lifting the
    /// source piece of a leap), flips the opposing pieces one step from the
    /// target, and passes the turn.
    pub fn do_move(&mut self, mv: &Move)
        requires
            old(self).wf(),
        ensures
            final(self).wf(),
            final(self).spec_cells() == moved(old(self).spec_cells(), old(self).spec_turn(), *mv),
            final(self).spec_turn() == old(self).spec_turn().spec_opposite(),
    {
        match mv {
            Move::Step(pos) => {
                self.set(pos, self.turn);
                self.flip_neighbors(pos);
            },
            Move::Leap(start, end) => {
                self.set(start, Piece::Empty);
                self.set(end, self.turn);
                self.flip_neighbors(end);
            },
        }
        self.turn = self.turn.opposite();
    }
}

/// A position is among the shifts of `p` that are cells exactly when it is a
/// cell reached from `p` along one of `dirs`.
pub proof fn lemma_shifts_present_contains(
    cells: Map<(int, int), Piece>,
    p: (int, int),
    dirs: Seq<Dir>,
)
    ensures
        forall|q: (int, int)|
            #[trigger] shifts_present(cells, p, dirs).contains(q) <==> cells.contains_key(q)
                && exists|j: int| 0 <= j < dirs.len() && shift(p, dirs[j]) == q,
    decreases dirs.len(),
{
    if dirs.len() > 0 {
        let init = dirs.drop_last();
        lemma_shifts_present_contains(cells, p, init);
        assert forall|q: (int, int)|
            #[trigger] shifts_present(cells, p, dirs).contains(q) <==> cells.contains_key(q)
                && exists|j: int| 0 <= j < dirs.len() && shift(p, dirs[j]) == q by {
            let rest = shifts_present(cells, p, init);
            let last = shift(p, dirs.last());
            if cells.contains_key(last) {
                lemma_push_contains(rest, last, q);
            }
            if exists|j: int| 0 <= j < dirs.len() && shift(p, dirs[j]) == q {
                let j = choose|j: int| 0 <= j < dirs.len() && shift(p, dirs[j]) == q;
                if j < dirs.len() - 1 {
                    assert(init[j] == dirs[j]);
                }
            }
            if exists|j: int| 0 <= j < init.len() && shift(p, init[j]) == q {
                let j = choose|j: int| 0 <= j < init.len() && shift(p, init[j]) == q;
                assert(dirs[j] == init[j]);
            }
        }
    }
}

/// A sequence with `x` appended holds `q` exactly when `q` is `x` or was held before.
proof fn lemma_push_contains<A>(s: Seq<A>, x: A, q: A)
    ensures
        s.push(x).contains(q) <==> s.contains(q) || q == x,
{
    if s.push(x).contains(q) {
        let k = choose|k: int| 0 <= k < s.len() + 1 && s.push(x)[k] == q;
        if k < s.len() {
            assert(s[k] == q);
        }
    }
    if s.contains(q) {
        let k = choose|k: int| 0 <= k < s.len() && s[k] == q;
        assert(s.push(x)[k] == q);
    }
    if q == x {
        assert(s.push(x)[s.len() as int] == q);
    }
}

/// Every position of the map has coordinates within `i32`.
proof fn lemma_cells_in_range(s: Seq<Cell>, q: (int, int))
    requires
        !(i32::MIN <= q.0 <= i32::MAX && i32::MIN <= q.1 <= i32::MAX),
    ensures
        !cells_map(s).contains_key(q),
{
    if cells_map(s).contains_key(q) {
        let i = choose|i: int| 0 <= i < s.len() && cell_key(s[i]) == q;
        assert(cell_key(s[i]) == q);
    }
}

/// A listed cell is in the map, holding its piece.
proof fn lemma_cells_lookup(s: Seq<Cell>, i: int)
    requires
        keys_unique(s),
        0 <= i < s.len(),
    ensures
        cells_map(s).contains_key(cell_key(s[i])),
        cells_map(s)[cell_key(s[i])] == s[i].1,
{
    let q = cell_key(s[i]);
    assert(cells_map(s).dom().contains(q));
    let j = choose|j: int| 0 <= j < s.len() && cell_key(s[j]) == q;
    assert(j == i);
}

/// Appending a cell at a new position adds it to the map.
pub proof fn lemma_cells_push(s: Seq<Cell>, e: Cell)
    requires
        keys_unique(s),
        !cells_map(s).contains_key(cell_key(e)),
    ensures
        keys_unique(s.push(e)),
        cells_map(s.push(e)) == cells_map(s).insert(cell_key(e), e.1),
{
    let t = s.push(e);
    assert forall|i: int| 0 <= i < s.len() implies cell_key(s[i]) != cell_key(e) by {
        assert(cells_map(s).contains_key(cell_key(s[i])));
    }
    assert forall|a: int, b: int|
        0 <= a < t.len() && 0 <= b < t.len() && a != b implies #[trigger] cell_key(t[a])
        != #[trigger] cell_key(t[b]) by {
        if a < s.len() {
            assert(t[a] == s[a]);
        }
        if b < s.len() {
            assert(t[b] == s[b]);
        }
    }
    let m = cells_map(s).insert(cell_key(e), e.1);
    assert forall|q: (int, int)| #[trigger] cells_map(t).contains_key(q) <==> m.contains_key(q) by {
        if cells_map(t).contains_key(q) {
            let k = choose|k: int| 0 <= k < t.len() && cell_key(t[k]) == q;
            if k < s.len() {
                assert(cell_key(s[k]) == q);
            }
        }
        if m.contains_key(q) && q != cell_key(e) {
            let k = choose|k: int| 0 <= k < s.len() && cell_key(s[k]) == q;
            assert(cell_key(t[k]) == q);
        }
        if q == cell_key(e) {
            assert(cell_key(t[s.len() as int]) == q);
        }
    }
    assert forall|q: (int, int)| cells_map(t).contains_key(q) implies #[trigger] cells_map(t)[q]
        == m[q] by {
        let k = choose|k: int| 0 <= k < t.len() && cell_key(t[k]) == q;
        lemma_cells_lookup(t, k);
        if k < s.len() {
            assert(t[k] == s[k]);
            lemma_cells_lookup(s, k);
        }
    }
    assert(cells_map(t) =~= m);
}

/// Overwriting the piece of a listed cell overwrites it in the map.
proof fn lemma_cells_update(s: Seq<Cell>, i: int, v: Piece)
    requires
        keys_unique(s),
        0 <= i < s.len(),
    ensures
        keys_unique(s.update(i, (s[i].0, v))),
        cells_map(s.update(i, (s[i].0, v))) == cells_map(s).insert(cell_key(s[i]), v),
{
    let t = s.update(i, (s[i].0, v));
    assert forall|a: int, b: int|
        0 <= a < t.len() && 0 <= b < t.len() && a != b implies #[trigger] cell_key(t[a])
        != #[trigger] cell_key(t[b]) by {
        assert(cell_key(t[a]) == cell_key(s[a]));
        assert(cell_key(t[b]) == cell_key(s[b]));
    }
    let m = cells_map(s).insert(cell_key(s[i]), v);
    assert forall|q: (int, int)| #[trigger] cells_map(t).contains_key(q) <==> m.contains_key(q) by {
        if cells_map(t).contains_key(q) {
            let k = choose|k: int| 0 <= k < t.len() && cell_key(t[k]) == q;
            assert(cell_key(s[k]) == q);
        }
        if m.contains_key(q) && q != cell_key(s[i]) {
            let k = choose|k: int| 0 <= k < s.len() && cell_key(s[k]) == q;
            assert(cell_key(t[k]) == q);
        }
        if q == cell_key(s[i]) {
            assert(cell_key(t[i]) == q);
        }
    }
    assert forall|q: (int, int)| cells_map(t).contains_key(q) implies #[trigger] cells_map(t)[q]
        == m[q] by {
        let k = choose|k: int| 0 <= k < t.len() && cell_key(t[k]) == q;
        assert(cell_key(s[k]) == q);
        lemma_cells_lookup(t, k);
        lemma_cells_lookup(s, k);
    }
    assert(cells_map(t) =~= m);
}

} // verus!
