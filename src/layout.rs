use vstd::prelude::*;
use vstd::string::StrSliceExecFns;

use crate::board::{cell_key, cells_map, is_extreme, keys_unique, lemma_cells_push, Board, Cell};
use crate::piece::Piece;

verus! {

/// Why a text does not describe a board.
#[derive(PartialEq, Eq, Structural, Clone, Copy, Debug)]
pub enum LoadError {
    /// No character of the text is a cell.
    NoPieces,
    /// A cell lies beyond the range of `i32`.
    TooLarge,
    /// The least x or the least y over the cells is not 0.
    NotAtOrigin,
}

/// What `textwrap::dedent` makes of a text.
pub uninterp spec fn dedented(s: Seq<char>) -> Seq<char>;

/// Whether a character has the Unicode `White_Space` property.
pub uninterp spec fn whitespace(c: char) -> bool;

/// Relies on `textwrap::dedent`: removes the leading whitespace common to all
/// lines; the result depends on the text alone.
#[verifier::external_body]
fn dedent(s: &str) -> (r: String)
    ensures
        r@ == dedented(s@),
{
    textwrap::dedent(s)
}

/// Relies on `char::is_whitespace`: true exactly for the characters with the
/// Unicode `White_Space` property, which the three cell symbols lack.
#[verifier::external_body]
fn is_whitespace(c: char) -> (r: bool)
    ensures
        r == whitespace(c),
        (c == '-' || c == 'X' || c == 'O') ==> !r,
{
    c.is_whitespace()
}

/// The piece a character stands for: `-` an empty cell, `X` Black, `O` White;
/// any other character is no cell.
pub open spec fn cell_piece(c: char) -> Option<Piece> {
    if c == '-' {
        Some(Piece::Empty)
    } else if c == 'X' {
        Some(Piece::Black)
    } else if c == 'O' {
        Some(Piece::White)
    } else {
        None
    }
}

/// The column of the character that follows the text `s`.
pub open spec fn column_after(s: Seq<char>) -> int
    decreases s.len(),
{
    if s.len() == 0 {
        0
    } else if s.last() == '\n' {
        0
    } else {
        column_after(s.drop_last()) + 1
    }
}

/// Whether the last, unfinished line of `s` holds a character other than whitespace.
pub open spec fn line_has_text(s: Seq<char>) -> bool
    decreases s.len(),
{
    if s.len() == 0 {
        false
    } else if s.last() == '\n' {
        false
    } else {
        !whitespace(s.last()) || line_has_text(s.drop_last())
    }
}

/// The row of the character that follows `s`: the number of finished lines
/// of `s` that hold more than whitespace. Blank lines take no row.
pub open spec fn row_after(s: Seq<char>) -> int
    decreases s.len(),
{
    if s.len() == 0 {
        0
    } else if s.last() == '\n' {
        row_after(s.drop_last()) + if line_has_text(s.drop_last()) {
            1int
        } else {
            0int
        }
    } else {
        row_after(s.drop_last())
    }
}

/// The cells that the text `s` describes, each at (column, row).
pub open spec fn text_cells(s: Seq<char>) -> Map<(int, int), Piece>
    decreases s.len(),
{
    if s.len() == 0 {
        Map::empty()
    } else {
        let prev = s.drop_last();
        match cell_piece(s.last()) {
            Some(v) => text_cells(prev).insert((column_after(prev), row_after(prev)), v),
            None => text_cells(prev),
        }
    }
}

/// Every cell of the text lies within the range of `i32`.
pub open spec fn cells_fit(s: Seq<char>) -> bool {
    forall|i: int|
        0 <= i < s.len() && #[trigger] cell_piece(s[i]) is Some ==> column_after(s.subrange(0, i))
            <= i32::MAX && row_after(s.subrange(0, i)) <= i32::MAX
}

/// Some character of the text is a cell.
pub open spec fn has_cell(s: Seq<char>) -> bool {
    exists|i: int| 0 <= i < s.len() && #[trigger] cell_piece(s[i]) is Some
}

/// Some cell lies in column 0 and some cell in row 0.
pub open spec fn at_origin(cells: Map<(int, int), Piece>) -> bool {
    is_extreme(cells, 0, false, false) && is_extreme(cells, 0, true, false)
}

/// The error that reading the text gives, if any.
pub open spec fn load_error(s: Seq<char>) -> Option<LoadError> {
    if !cells_fit(s) {
        Some(LoadError::TooLarge)
    } else if !has_cell(s) {
        Some(LoadError::NoPieces)
    } else if !at_origin(text_cells(s)) {
        Some(LoadError::NotAtOrigin)
    } else {
        None
    }
}

impl Board {
    /// Reads a board from a diagram, after removing the indentation common to
    /// its lines. Each `-`, `X` or `O` is a cell, at (column, row); blank lines
    /// take no row. Black moves first.
    pub fn load(input: &str) -> (r: Result<Board, LoadError>)
        ensures
            match r {
                Ok(b) => {
                    &&& load_error(dedented(input@)) is None
                    &&& b.wf()
                    &&& b.spec_cells() == text_cells(dedented(input@))
                    &&& b.spec_turn() == Piece::Black
                },
                Err(e) => load_error(dedented(input@)) == Some(e),
            },
    {
        let text = dedent(input);
        Board::from_text(text.as_str())
    }

    /// Reads a board from a diagram as it stands. Each `-`, `X` or `O` is a
    /// cell, at (column, row); blank lines take no row. Black moves first.
    pub fn from_text(text: &str) -> (r: Result<Board, LoadError>)
        ensures
            match r {
                Ok(b) => {
                    &&& load_error(text@) is None
                    &&& b.wf()
                    &&& b.spec_cells() == text_cells(text@)
                    &&& b.spec_turn() == Piece::Black
                },
                Err(e) => load_error(text@) == Some(e),
            },
    {
        let ghost s = text@;
        let mut cells: Vec<Cell> = Vec::new();
        let mut x: usize = 0;
        let mut y: usize = 0;
        let mut has_text: bool = false;
        let ghost mut k: int = 0;
        // The number of characters bounds the column and row counters.
        let n = text.unicode_len();
        assert(s.subrange(0, 0) =~= Seq::<char>::empty());
        assert(cells_map(cells@) =~= Map::<(int, int), Piece>::empty());
        for c in it: text.chars()
            invariant
                s == text@,
                it.seq() == s,
                k == it.index(),
                n == s.len(),
                k <= s.len(),
                x <= k,
                y <= k,
                x == column_after(s.subrange(0, k as int)),
                y == row_after(s.subrange(0, k as int)),
                has_text == line_has_text(s.subrange(0, k as int)),
                keys_unique(cells@),
                cells_map(cells@) == text_cells(s.subrange(0, k as int)),
                forall|j: int|
                    0 <= j < cells@.len() ==> (#[trigger] cell_key(cells@[j])).1 < y || (cell_key(
                        cells@[j],
                    ).1 == y && cell_key(cells@[j]).0 < x && has_text),
                forall|i: int|
                    0 <= i < k && #[trigger] cell_piece(s[i]) is Some ==> column_after(
                        s.subrange(0, i),
                    ) <= i32::MAX && row_after(s.subrange(0, i)) <= i32::MAX,
                cells@.len() > 0 <==> exists|i: int| 0 <= i < k && #[trigger] cell_piece(s[i]) is Some,
        {
            assert(c == s[k]);
            let ghost pre = s.subrange(0, k as int);
            assert(s.subrange(0, k + 1).drop_last() =~= pre);
            assert(s.subrange(0, k + 1).last() == c);
            let piece: Option<Piece> = if c == '-' {
                Some(Piece::Empty)
            } else if c == 'X' {
                Some(Piece::Black)
            } else if c == 'O' {
                Some(Piece::White)
            } else {
                None
            };
            let blank = is_whitespace(c);
            if c == '\n' {
                if has_text {
                    y = y + 1;
                }
                x = 0;
                has_text = false;
            } else {
                match piece {
                    Some(v) => {
                        if x > i32::MAX as usize || y > i32::MAX as usize {
                            return Err(LoadError::TooLarge);
                        }
                        let e: Cell = ((x as i32, y as i32), v);
                        proof {
                            assert forall|j: int| 0 <= j < cells@.len() implies cell_key(cells@[j])
                                != cell_key(e) by {}
                            if cells_map(cells@).contains_key(cell_key(e)) {
                                let j = choose|j: int|
                                    0 <= j < cells@.len() && cell_key(cells@[j]) == cell_key(e);
                                assert(cell_key(cells@[j]) == cell_key(e));
                            }
                            lemma_cells_push(cells@, e);
                        }
                        cells.push(e);
                    },
                    None => {},
                }
                x = x + 1;
                has_text = has_text || !blank;
            }
            proof {
                assert(s.subrange(0, k as int).len() == k);
                assert(cells_map(cells@) =~= text_cells(s.subrange(0, k + 1)));
            }
            proof {
                k = k + 1;
            }
        }
        assert(s.subrange(0, s.len() as int) =~= s);
        if cells.len() == 0 {
            return Err(LoadError::NoPieces);
        }
        let board = Board::from_cells(cells);
        let min_x = board.min_x();
        let min_y = board.min_y();
        proof {
            crate::board::lemma_extreme_unique(board.spec_cells(), min_x as int, 0, false, false);
            crate::board::lemma_extreme_unique(board.spec_cells(), min_y as int, 0, true, false);
        }
        if min_x != 0 || min_y != 0 {
            return Err(LoadError::NotAtOrigin);
        }
        Ok(board)
    }
}

} // verus!
