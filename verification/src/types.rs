//! The grid, the moves, the solutions and the puzzle, with the mathematical
//! content that contracts speak of.

use crate::path::{coord_at, lemma_replay_stops, replay, replay_upto};
use vstd::prelude::*;

verus! {

/// Which axis the next move selects: `SelectRow` means the column is fixed
/// and a row is chosen, `SelectColumn` the reverse.
#[derive(Debug, Clone, Copy, PartialEq, Eq, Structural)]
pub enum PuzzleMoveType {
    SelectRow,
    SelectColumn,
}

/// A single selection. `NoMove` is only ever a placeholder and never part of
/// a finished move sequence.
#[derive(Debug, Copy, Clone, PartialEq, Eq, Structural)]
pub enum PuzzleMove {
    NoMove,
    Row(u32),
    Column(u32),
}

/// A sequence of moves.
pub type PuzzleMoves = Vec<PuzzleMove>;

/// A `(row, col)` pair addressing one grid cell.
pub type CellCoord = (u32, u32);

/// A daemon: the tokens that must show up in the buffer as one contiguous run.
pub type PuzzleDaemon = Vec<String>;

/// The characters of each string of `v`, in order.
pub open spec fn tokens(v: Seq<String>) -> Seq<Seq<char>> {
    Seq::new(v.len(), |i: int| v[i]@)
}

/// The characters of each string slice of `v`, in order.
pub open spec fn slice_tokens(v: Seq<&str>) -> Seq<Seq<char>> {
    Seq::new(v.len(), |i: int| v[i]@)
}

/// The tokens of each daemon of `v`, in order.
pub open spec fn daemon_tokens(v: Seq<PuzzleDaemon>) -> Seq<Seq<Seq<char>>> {
    Seq::new(v.len(), |i: int| tokens(v[i]@))
}

/// The mathematical content of a `PuzzleGrid`.
pub struct GridView {
    pub rows: nat,
    pub cols: nat,
    pub cells: Seq<Seq<char>>,
}

impl GridView {
    /// The cell vector holds exactly `rows * cols` tokens, row after row.
    pub open spec fn wf(self) -> bool {
        self.cells.len() == self.rows * self.cols
    }

    /// `(row, col)` addresses a cell of the grid.
    pub open spec fn has(self, row: int, col: int) -> bool {
        0 <= row < self.rows && 0 <= col < self.cols
    }

    /// Position of `(row, col)` in the cell vector.
    pub open spec fn index_of(self, row: int, col: int) -> int {
        row * self.cols + col
    }

    /// The token at `(row, col)`.
    pub open spec fn cell(self, row: int, col: int) -> Seq<char> {
        self.cells[self.index_of(row, col)]
    }

    /// Row `row` as a sequence of `cols` tokens.
    pub open spec fn row_tokens(self, row: int) -> Seq<Seq<char>> {
        Seq::new(self.cols, |j: int| self.cell(row, j))
    }

    /// Column `col` as a sequence of `rows` tokens.
    pub open spec fn col_tokens(self, col: int) -> Seq<Seq<char>> {
        Seq::new(self.rows, |i: int| self.cell(i, col))
    }
}

/// Every valid coordinate of a `rows` x `cols` grid has its index below
/// `rows * cols`, and the row's first index is no larger.
pub proof fn lemma_index_in_bounds(rows: int, cols: int, row: int, col: int)
    requires
        0 <= row < rows,
        0 <= col < cols,
    ensures
        0 <= row * cols,
        row * cols + col < rows * cols,
        row * cols + cols <= rows * cols,
{
    assert(0 <= row * cols) by (nonlinear_arith)
        requires
            0 <= row,
            0 <= cols,
    ;
    assert(row * cols + cols <= rows * cols) by (nonlinear_arith)
        requires
            0 <= row < rows,
            0 <= cols,
    ;
}

/// Two valid coordinates share an index only if they are the same coordinate.
pub proof fn lemma_index_injective(cols: int, r1: int, c1: int, r2: int, c2: int)
    requires
        0 <= c1 < cols,
        0 <= c2 < cols,
        0 <= r1,
        0 <= r2,
        r1 * cols + c1 == r2 * cols + c2,
    ensures
        r1 == r2,
        c1 == c2,
{
    if r1 < r2 {
        assert(r1 * cols + cols <= r2 * cols) by (nonlinear_arith)
            requires
                r1 < r2,
                0 <= cols,
        ;
    } else if r2 < r1 {
        assert(r2 * cols + cols <= r1 * cols) by (nonlinear_arith)
            requires
                r2 < r1,
                0 <= cols,
        ;
    }
}

/// A rectangular grid of tokens, stored row after row.
pub struct PuzzleGrid {
    pub rows: u32,
    pub cols: u32,
    pub cells: Vec<String>,
}

impl View for PuzzleGrid {
    type V = GridView;

    open spec fn view(&self) -> GridView {
        GridView { rows: self.rows as nat, cols: self.cols as nat, cells: tokens(self.cells@) }
    }
}

impl PuzzleGrid {
    /// A grid of the given size whose cells are all blank.
    pub fn new(rows: u32, cols: u32) -> (grid: PuzzleGrid)
        requires
            rows * cols <= usize::MAX,
        ensures
            grid@.wf(),
            grid.rows == rows,
            grid.cols == cols,
            forall|i: int| 0 <= i < rows * cols ==> grid@.cells[i] == Seq::<char>::empty(),
    {
        let total: usize = (rows as usize) * (cols as usize);
        let mut cells: Vec<String> = Vec::new();
        let mut i: usize = 0;
        while i < total
            invariant
                i <= total,
                cells.len() == i,
                forall|k: int| 0 <= k < i ==> cells[k]@ == Seq::<char>::empty(),
            decreases total - i,
        {
            cells.push(String::new());
            i = i + 1;
        }
        PuzzleGrid { rows, cols, cells }
    }

    /// A grid of the given size holding `cells`, row after row. The grid is
    /// well formed exactly when `cells` has `rows * cols` entries.
    pub fn from_cells(rows: u32, cols: u32, cells: Vec<&str>) -> (grid: PuzzleGrid)
        ensures
            grid.rows == rows,
            grid.cols == cols,
            grid@.cells == slice_tokens(cells@),
            grid@.wf() <==> cells.len() == rows * cols,
    {
        let mut owned: Vec<String> = Vec::new();
        let mut i: usize = 0;
        while i < cells.len()
            invariant
                i <= cells.len(),
                owned.len() == i,
                forall|k: int| 0 <= k < i ==> owned[k]@ == cells[k]@,
            decreases cells.len() - i,
        {
            owned.push(cells[i].to_owned());
            i = i + 1;
        }
        let grid = PuzzleGrid { rows, cols, cells: owned };
        assert(grid@.cells =~= slice_tokens(cells@));
        grid
    }

    /// The tokens of row `index`, left to right.
    pub fn row(&self, index: u32) -> (r: Vec<&str>)
        requires
            self@.wf(),
            index < self.rows,
        ensures
            slice_tokens(r@) == self@.row_tokens(index as int),
    {
        let mut r: Vec<&str> = Vec::new();
        let mut j: u32 = 0;
        while j < self.cols
            invariant
                self@.wf(),
                index < self.rows,
                j <= self.cols,
                r.len() == j,
                forall|k: int| 0 <= k < j ==> r[k]@ == self@.cell(index as int, k),
            decreases self.cols - j,
        {
            let cell = self.get_cell(index, j);
            r.push(cell.as_str());
            j = j + 1;
        }
        assert(slice_tokens(r@) =~= self@.row_tokens(index as int));
        r
    }

    /// The tokens of column `index`, top to bottom.
    pub fn col(&self, index: u32) -> (c: Vec<&str>)
        requires
            self@.wf(),
            index < self.cols,
        ensures
            slice_tokens(c@) == self@.col_tokens(index as int),
    {
        let mut c: Vec<&str> = Vec::new();
        let mut i: u32 = 0;
        while i < self.rows
            invariant
                self@.wf(),
                index < self.cols,
                i <= self.rows,
                c.len() == i,
                forall|k: int| 0 <= k < i ==> c[k]@ == self@.cell(k, index as int),
            decreases self.rows - i,
        {
            let cell = self.get_cell(i, index);
            c.push(cell.as_str());
            i = i + 1;
        }
        assert(slice_tokens(c@) =~= self@.col_tokens(index as int));
        c
    }

    /// Whether the grid holds exactly `rows * cols` cells.
    pub fn is_well_formed(&self) -> (ok: bool)
        ensures
            ok == self@.wf(),
    {
        assert(self.rows as u64 * self.cols as u64 <= u64::MAX) by (nonlinear_arith)
            requires
                self.rows <= 0xffff_ffff,
                self.cols <= 0xffff_ffff,
        ;
        let expected: u64 = (self.rows as u64) * (self.cols as u64);
        assert(self@.cells.len() == self.cells.len());
        self.cells.len() as u64 == expected
    }

    /// Position of `(row, col)` in the cell vector.
    pub fn cell_index(&self, row: u32, col: u32) -> (idx: usize)
        requires
            self@.wf(),
            row < self.rows,
            col < self.cols,
        ensures
            idx == self@.index_of(row as int, col as int),
            idx < self.cells.len(),
    {
        proof {
            lemma_index_in_bounds(self.rows as int, self.cols as int, row as int, col as int);
            assert(self@.cells.len() == self.cells.len());
            assert(self.rows as int * self.cols as int == self.cells.len());
        }
        (row as usize) * (self.cols as usize) + (col as usize)
    }

    /// The token at `(row, col)`.
    pub fn get_cell(&self, row: u32, col: u32) -> (cell: &String)
        requires
            self@.wf(),
            row < self.rows,
            col < self.cols,
        ensures
            cell@ == self@.cell(row as int, col as int),
    {
        let idx: usize = self.cell_index(row, col);
        &self.cells[idx]
    }

    /// Replaces the token at `(row, col)` by `value` and leaves every other
    /// cell as it was.
    pub fn set_cell(&mut self, row: u32, col: u32, value: &str)
        requires
            old(self)@.wf(),
            row < old(self).rows,
            col < old(self).cols,
        ensures
            final(self).rows == old(self).rows,
            final(self).cols == old(self).cols,
            final(self)@.cells == old(self)@.cells.update(
                old(self)@.index_of(row as int, col as int),
                value@,
            ),
            final(self)@.wf(),
    {
        let idx: usize = self.cell_index(row, col);
        self.cells.set(idx, value.to_owned());
        assert(self@.cells =~= old(self)@.cells.update(
            old(self)@.index_of(row as int, col as int),
            value@,
        ));
    }
}

/// The mathematical content of a `PuzzleSolution`.
pub struct SolutionView {
    pub buffer: Seq<Seq<char>>,
    pub moves: Seq<PuzzleMove>,
}

/// A finished move sequence together with the tokens it collects.
#[derive(Clone)]
pub struct PuzzleSolution {
    pub buffer: Vec<String>,
    pub moves: PuzzleMoves,
}

impl View for PuzzleSolution {
    type V = SolutionView;

    open spec fn view(&self) -> SolutionView {
        SolutionView { buffer: tokens(self.buffer@), moves: self.moves@ }
    }
}

/// The content of each solution of `v`, in order.
pub open spec fn solution_views(v: Seq<PuzzleSolution>) -> Seq<SolutionView> {
    Seq::new(v.len(), |i: int| v[i]@)
}

impl PuzzleSolution {
    /// The coordinates that the moves visit, in order, starting out from
    /// `(0, 0)`: a row move changes the row, a column move the column, and
    /// a placeholder ends the replay.
    pub fn to_coords(&self) -> (coords: Vec<CellCoord>)
        ensures
            coords@ == replay(self.moves@),
    {
        let mut last_coord: CellCoord = (0, 0);
        let mut coords: Vec<CellCoord> = Vec::new();
        let mut i: usize = 0;
        let mut stopped: bool = false;
        while i < self.moves.len() && !stopped
            invariant
                i <= self.moves.len(),
                !stopped ==> coords.len() == i,
                !stopped ==> last_coord == coord_at(self.moves@, i - 1),
                !stopped ==> coords@ == replay_upto(self.moves@, i as int),
                stopped ==> coords@ == replay(self.moves@),
            decreases self.moves.len() - i + (if stopped { 0int } else { 1int }),
        {
            match self.moves[i] {
                PuzzleMove::Row(row) => {
                    let coord: CellCoord = (row, last_coord.1);
                    coords.push(coord);
                    last_coord = coord;
                    i = i + 1;
                },
                PuzzleMove::Column(col) => {
                    let coord: CellCoord = (last_coord.0, col);
                    coords.push(coord);
                    last_coord = coord;
                    i = i + 1;
                },
                PuzzleMove::NoMove => {
                    proof {
                        lemma_replay_stops(self.moves@, i + 1, self.moves.len() as int);
                    }
                    stopped = true;
                },
            }
        }
        coords
    }

    /// A copy that holds the same moves and the same tokens.
    pub fn duplicate(&self) -> (copy: PuzzleSolution)
        ensures
            copy@ == self@,
    {
        let copy = PuzzleSolution {
            buffer: copy_tokens(&self.buffer),
            moves: copy_moves(&self.moves),
        };
        assert(copy@.buffer =~= self@.buffer);
        copy
    }
}

/// A copy of `v` that holds the same tokens.
pub(crate) fn copy_tokens(v: &Vec<String>) -> (copy: Vec<String>)
    ensures
        copy@ == v@,
{
    let mut copy: Vec<String> = Vec::new();
    let mut i: usize = 0;
    while i < v.len()
        invariant
            i <= v.len(),
            copy@ == v@.take(i as int),
        decreases v.len() - i,
    {
        copy.push(v[i].clone());
        assert(v@.take(i + 1) =~= v@.take(i as int).push(v@[i as int]));
        i = i + 1;
    }
    assert(v@.take(v.len() as int) =~= v@);
    copy
}

/// A copy of `v` that holds the same moves.
pub(crate) fn copy_moves(v: &Vec<PuzzleMove>) -> (copy: Vec<PuzzleMove>)
    ensures
        copy@ == v@,
{
    let mut copy: Vec<PuzzleMove> = Vec::new();
    let mut i: usize = 0;
    while i < v.len()
        invariant
            i <= v.len(),
            copy@ == v@.take(i as int),
        decreases v.len() - i,
    {
        copy.push(v[i]);
        assert(v@.take(i + 1) =~= v@.take(i as int).push(v@[i as int]));
        i = i + 1;
    }
    assert(v@.take(v.len() as int) =~= v@);
    copy
}

/// The mathematical content of a `Puzzle`.
pub struct PuzzleView {
    pub buffer_size: nat,
    pub grid: GridView,
    pub daemons: Seq<Seq<Seq<char>>>,
}

impl PuzzleView {
    /// The puzzle is one the solver accepts: the grid holds `rows * cols`
    /// cells, it has a first row to start from wherever it has a column,
    /// and no daemon is empty. Sizes are those of a `Puzzle`.
    pub open spec fn wf(self) -> bool {
        &&& self.grid.wf()
        &&& self.grid.rows <= u32::MAX
        &&& self.grid.cols <= u32::MAX
        &&& self.buffer_size <= u32::MAX
        &&& self.grid.cols > 0 ==> self.grid.rows > 0
        &&& forall|d: int|
            0 <= d < self.daemons.len() ==> 1 <= (#[trigger] self.daemons[d]).len() <= usize::MAX
    }
}

/// A grid, the daemons to find in it, and the number of moves allowed.
pub struct Puzzle {
    pub buffer_size: u32,
    pub grid: PuzzleGrid,
    pub daemons: Vec<PuzzleDaemon>,
}

impl Puzzle {
    /// Whether the solver accepts the puzzle: the grid holds `rows * cols`
    /// cells, it has a first row wherever it has a column, and no daemon is
    /// empty.
    pub fn is_well_formed(&self) -> (ok: bool)
        ensures
            ok == self@.wf(),
    {
        if !self.grid.is_well_formed() {
            return false;
        }
        if self.grid.cols > 0 && self.grid.rows == 0 {
            return false;
        }
        let mut d: usize = 0;
        while d < self.daemons.len()
            invariant
                d <= self.daemons.len(),
                forall|k: int| 0 <= k < d ==> 1 <= (#[trigger] self@.daemons[k]).len(),
            decreases self.daemons.len() - d,
        {
            if self.daemons[d].len() == 0 {
                assert(self@.daemons[d as int].len() == 0);
                return false;
            }
            assert(self@.daemons[d as int].len() == self.daemons[d as int].len());
            d = d + 1;
        }
        assert forall|k: int| 0 <= k < self@.daemons.len() implies (
        #[trigger] self@.daemons[k]).len() <= usize::MAX by {
            assert(self@.daemons[k].len() == self.daemons[k].len());
        }
        true
    }
}

impl View for Puzzle {
    type V = PuzzleView;

    open spec fn view(&self) -> PuzzleView {
        PuzzleView {
            buffer_size: self.buffer_size as nat,
            grid: self.grid@,
            daemons: daemon_tokens(self.daemons@),
        }
    }
}

} // verus!
