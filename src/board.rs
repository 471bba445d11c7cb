//! The grid of cells that the words are searched in.
use vstd::prelude::*;

verus! {

/// A position on a board: a row and a column, both counted from 0.
#[derive(Debug, Clone, Copy, PartialEq, Eq)]
pub struct Pos {
    pub row: usize,
    pub col: usize,
}

impl Pos {
    pub fn new(row: usize, col: usize) -> (r: Self)
        ensures
            r.row == row,
            r.col == col,
    {
        Pos { row, col }
    }
}

/// Two cells touch: they differ, and neither their rows nor their columns
/// are more than one apart.
pub open spec fn touches(a: Pos, b: Pos) -> bool {
    &&& a != b
    &&& a.row <= b.row + 1
    &&& b.row <= a.row + 1
    &&& a.col <= b.col + 1
    &&& b.col <= a.col + 1
}

/// A grid of cells, each holding the text of one die face, stored row by
/// row.
pub struct BoggleBoard {
    height: usize,
    width: usize,
    board: Vec<Vec<String>>,
}

impl BoggleBoard {
    /// The number of rows.
    pub closed spec fn spec_height(&self) -> nat {
        self.height as nat
    }

    /// The number of columns, taken from the first row.
    pub closed spec fn spec_width(&self) -> nat {
        self.width as nat
    }

    /// The rows of cells.
    pub closed spec fn rows(&self) -> Seq<Vec<String>> {
        self.board@
    }

    /// A board of the given rows; its width is that of the first row.
    pub fn new(board: Vec<Vec<String>>) -> (r: Self)
        requires
            board@.len() > 0,
        ensures
            r.spec_height() == board@.len(),
            r.spec_width() == board@[0]@.len(),
            r.rows() == board@,
    {
        let height = board.len();
        let width = board[0].len();
        BoggleBoard { height, width, board }
    }

    /// The number of rows.
    pub fn height(&self) -> (r: usize)
        ensures
            r == self.spec_height(),
    {
        self.height
    }

    /// The number of columns.
    pub fn width(&self) -> (r: usize)
        ensures
            r == self.spec_width(),
    {
        self.width
    }

    /// The cells of the board that touch `pos`, each once.
    pub fn get_adjacent_indexes(&self, pos: Pos) -> (r: Vec<Pos>)
        requires
            pos.row < self.spec_height(),
            pos.col < self.spec_width(),
        ensures
            r@.no_duplicates(),
            forall|p: Pos|
                #[trigger] r@.contains(p) <==> (touches(p, pos) && p.row < self.spec_height() && p.col
                    < self.spec_width()),
    {
        let mut indexes: Vec<Pos> = Vec::new();
        // Where each neighbour went, for the proof below.
        let ghost mut at: Map<(int, int), int> = Map::empty();
        if pos.row > 0 {
            proof { at = at.insert((-1, 0), indexes@.len() as int); }
            indexes.push(Pos::new(pos.row - 1, pos.col));  // up
            if pos.col > 0 {
                proof { at = at.insert((-1, -1), indexes@.len() as int); }
                indexes.push(Pos::new(pos.row - 1, pos.col - 1));  // up-left
            }
            if pos.col < self.width - 1 {
                proof { at = at.insert((-1, 1), indexes@.len() as int); }
                indexes.push(Pos::new(pos.row - 1, pos.col + 1));  // up-right
            }
        }
        if pos.row < self.height - 1 {
            proof { at = at.insert((1, 0), indexes@.len() as int); }
            indexes.push(Pos::new(pos.row + 1, pos.col));  // down
            if pos.col > 0 {
                proof { at = at.insert((1, -1), indexes@.len() as int); }
                indexes.push(Pos::new(pos.row + 1, pos.col - 1));  // down-left
            }
            if pos.col < self.width - 1 {
                proof { at = at.insert((1, 1), indexes@.len() as int); }
                indexes.push(Pos::new(pos.row + 1, pos.col + 1));  // down-right
            }
        }
        if pos.col > 0 {
            proof { at = at.insert((0, -1), indexes@.len() as int); }
            indexes.push(Pos::new(pos.row, pos.col - 1));  // left
        }
        if pos.col < self.width - 1 {
            proof { at = at.insert((0, 1), indexes@.len() as int); }
            indexes.push(Pos::new(pos.row, pos.col + 1));  // right
        }
        proof {
            let s = indexes@;
            assert forall|p: Pos| #[trigger] s.contains(p) implies touches(p, pos) && p.row
                < self.spec_height() && p.col < self.spec_width() by {
                let k = choose|k: int| 0 <= k < s.len() && s[k] == p;
            }
            assert forall|p: Pos|
                touches(p, pos) && p.row < self.spec_height() && p.col < self.spec_width() implies #[trigger] s.contains(
                p,
            ) by {
                let d = (p.row - pos.row, p.col - pos.col);
                assert(at.contains_key(d));
                assert(s[at[d]] == p);
            }
        }
        indexes
    }
}

} // verus!
