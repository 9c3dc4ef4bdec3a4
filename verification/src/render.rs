//! Grids and solutions written as text.

use crate::decimal::{decimal, decimal_string};
use crate::types::{GridView, PuzzleGrid, PuzzleMove, PuzzleSolution, SolutionView};
use vstd::prelude::*;
use vstd::string::{StrSliceExecFns, StringExecFns};

verus! {

/// `unit` written `n` times in a row.
pub open spec fn repeated(unit: Seq<char>, n: int) -> Seq<char>
    decreases n,
{
    if n <= 0 {
        Seq::empty()
    } else {
        repeated(unit, n - 1) + unit
    }
}

/// `cell` in the middle of a field of `width` characters: the blanks that
/// are missing go half to the left and half to the right, the odd one to
/// the right. A cell that fills the field stays as it is.
pub open spec fn centered(cell: Seq<char>, width: int) -> Seq<char> {
    if cell.len() >= width {
        cell
    } else {
        repeated(" "@, (width - cell.len()) / 2) + cell + repeated(
            " "@,
            (width - cell.len() + 1) / 2,
        )
    }
}

/// The first `k` cells of row `row`, each centered in a field of five
/// characters, with a bar between neighbours.
pub open spec fn cells_text(grid: GridView, row: int, k: int) -> Seq<char>
    decreases k,
{
    if k <= 0 {
        Seq::empty()
    } else if k == 1 {
        centered(grid.cell(row, 0), 5)
    } else {
        cells_text(grid, row, k - 1) + "|"@ + centered(grid.cell(row, k - 1), 5)
    }
}

/// The line of row `row`: its cells between two bars.
pub open spec fn row_text(grid: GridView, row: int) -> Seq<char> {
    "|"@ + cells_text(grid, row, grid.cols as int) + "|"@ + "\n"@
}

/// The line that is ruled between two rows: one dash, and six more for
/// every column.
pub open spec fn rule_text(cols: int) -> Seq<char> {
    "\u{2014}"@ + repeated("\u{2014}"@, 6 * cols) + "\n"@
}

/// The lines of the first `k` rows with a rule between neighbours.
pub open spec fn rows_text(grid: GridView, k: int) -> Seq<char>
    decreases k,
{
    if k <= 0 {
        Seq::empty()
    } else if k == 1 {
        row_text(grid, 0)
    } else {
        rows_text(grid, k - 1) + rule_text(grid.cols as int) + row_text(grid, k - 1)
    }
}

/// The grid as a table: a rule, the rows with a rule between them, and a
/// rule.
pub open spec fn grid_text(grid: GridView) -> Seq<char> {
    rule_text(grid.cols as int) + rows_text(grid, grid.rows as int) + rule_text(grid.cols as int)
}

/// Appends `unit` to `text` `n` times.
fn append_repeated(text: &mut String, unit: &str, n: usize)
    ensures
        final(text)@ == old(text)@ + repeated(unit@, n as int),
{
    let mut i: usize = 0;
    assert(text@ =~= old(text)@ + repeated(unit@, 0));
    while i < n
        invariant
            i <= n,
            text@ == old(text)@ + repeated(unit@, i as int),
        decreases n - i,
    {
        text.append(unit);
        assert(text@ =~= old(text)@ + repeated(unit@, i + 1));
        i = i + 1;
    }
}

/// Appends `cell` to `text`, centered in a field of `width` characters.
fn append_centered(text: &mut String, cell: &str, width: usize)
    ensures
        final(text)@ == old(text)@ + centered(cell@, width as int),
{
    let len: usize = cell.unicode_len();
    if len >= width {
        text.append(cell);
    } else {
        let padding: usize = width - len;
        append_repeated(text, " ", padding / 2);
        text.append(cell);
        append_repeated(text, " ", padding - padding / 2);
        assert(text@ =~= old(text)@ + centered(cell@, width as int));
    }
}

/// Appends the rule for a table of `cols` columns to `text`.
fn append_rule(text: &mut String, cols: u32)
    ensures
        final(text)@ == old(text)@ + rule_text(cols as int),
{
    text.append("\u{2014}");
    let ghost started = text@;
    let mut col: u32 = 0;
    assert(text@ =~= started + repeated("\u{2014}"@, 0));
    while col < cols
        invariant
            col <= cols,
            text@ == started + repeated("\u{2014}"@, 6 * col),
        decreases cols - col,
    {
        append_repeated(text, "\u{2014}", 6);
        proof {
            lemma_repeated_add("\u{2014}"@, 6 * col, 6);
            assert(text@ =~= started + repeated("\u{2014}"@, 6 * (col + 1)));
        }
        col = col + 1;
    }
    text.append("\n");
    assert(text@ =~= old(text)@ + rule_text(cols as int));
}

/// Writing a unit `a` times and then `b` times writes it `a + b` times.
proof fn lemma_repeated_add(unit: Seq<char>, a: int, b: int)
    requires
        0 <= a,
        0 <= b,
    ensures
        repeated(unit, a) + repeated(unit, b) == repeated(unit, a + b),
    decreases b,
{
    if b > 0 {
        lemma_repeated_add(unit, a, b - 1);
        assert(repeated(unit, a) + (repeated(unit, b - 1) + unit) =~= (repeated(unit, a)
            + repeated(unit, b - 1)) + unit);
    } else {
        assert(repeated(unit, a) + repeated(unit, 0) =~= repeated(unit, a));
    }
}

impl PuzzleGrid {
    /// Appends the line of row `row` to `text`.
    fn append_row(&self, text: &mut String, row: u32)
        requires
            self@.wf(),
            row < self.rows,
        ensures
            final(text)@ == old(text)@ + row_text(self@, row as int),
    {
        text.append("|");
        let ghost started = text@;
        let mut col: u32 = 0;
        assert(text@ =~= started + cells_text(self@, row as int, 0));
        while col < self.cols
            invariant
                self@.wf(),
                row < self.rows,
                col <= self.cols,
                text@ == started + cells_text(self@, row as int, col as int),
            decreases self.cols - col,
        {
            if col > 0 {
                text.append("|");
            }
            let cell = self.get_cell(row, col);
            append_centered(text, cell.as_str(), 5);
            assert(text@ =~= started + cells_text(self@, row as int, col + 1));
            col = col + 1;
        }
        text.append("|");
        text.append("\n");
        assert(text@ =~= old(text)@ + row_text(self@, row as int));
    }

    /// The grid as a table of text, one line for each row, each cell
    /// centered in a field of five characters, with bars between the cells
    /// and a rule before, between and after the rows.
    pub fn to_string(&self) -> (text: String)
        requires
            self@.wf(),
        ensures
            text@ == grid_text(self@),
    {
        let mut text = String::new();
        append_rule(&mut text, self.cols);
        let ghost started = text@;
        let mut row: u32 = 0;
        assert(text@ =~= started + rows_text(self@, 0));
        while row < self.rows
            invariant
                self@.wf(),
                row <= self.rows,
                text@ == started + rows_text(self@, row as int),
            decreases self.rows - row,
        {
            if row > 0 {
                append_rule(&mut text, self.cols);
            }
            self.append_row(&mut text, row);
            assert(text@ =~= started + rows_text(self@, row + 1));
            row = row + 1;
        }
        append_rule(&mut text, self.cols);
        assert(text@ =~= grid_text(self@));
        text
    }
}

/// What the `{:?}` format of std writes for a string: the string between
/// quotes, with escapes where std uses them.
pub uninterp spec fn quoted(text: Seq<char>) -> Seq<char>;

/// The `{:?}` format of std, applied to one string. The contract only
/// gives the result its name; quoting and escaping are left to std.
#[verifier::external_body]
fn quote(text: &String) -> (written: String)
    ensures
        written@ == quoted(text@),
{
    format!("{:?}", text)
}

/// A move as text: its kind with its index in brackets, or `None` for a
/// placeholder.
pub open spec fn move_text(m: PuzzleMove) -> Seq<char> {
    match m {
        PuzzleMove::Row(r) => "Row("@ + decimal(r as nat) + ")"@,
        PuzzleMove::Column(c) => "Column("@ + decimal(c as nat) + ")"@,
        PuzzleMove::NoMove => "None"@,
    }
}

/// The first `k` of `items` with a comma and a blank between neighbours.
pub open spec fn listed(items: Seq<Seq<char>>, k: int) -> Seq<char>
    decreases k,
{
    if k <= 0 {
        Seq::empty()
    } else if k == 1 {
        items[0]
    } else {
        listed(items, k - 1) + ", "@ + items[k - 1]
    }
}

/// `items` as a list in square brackets.
pub open spec fn list_text(items: Seq<Seq<char>>) -> Seq<char> {
    "["@ + listed(items, items.len() as int) + "]"@
}

/// A solution as text: a line with its tokens, each in quotes, and a line
/// with its moves.
pub open spec fn solution_text(s: SolutionView) -> Seq<char> {
    "buffer: "@ + list_text(Seq::new(s.buffer.len(), |i: int| quoted(s.buffer[i]))) + "\n"@
        + "moves: "@ + list_text(Seq::new(s.moves.len(), |i: int| move_text(s.moves[i]))) + "\n"@
}

/// Appends the text of `m` to `text`.
fn append_move(text: &mut String, m: PuzzleMove)
    ensures
        final(text)@ == old(text)@ + move_text(m),
{
    match m {
        PuzzleMove::Row(r) => {
            text.append("Row(");
            text.append(decimal_string(r as usize).as_str());
            text.append(")");
        },
        PuzzleMove::Column(c) => {
            text.append("Column(");
            text.append(decimal_string(c as usize).as_str());
            text.append(")");
        },
        PuzzleMove::NoMove => {
            text.append("None");
        },
    }
    assert(text@ =~= old(text)@ + move_text(m));
}

impl PuzzleSolution {
    /// The solution as two lines of text, the tokens and the moves.
    pub fn to_string(&self) -> (text: String)
        ensures
            text@ == solution_text(self@),
    {
        let ghost tokens = Seq::new(self@.buffer.len(), |i: int| quoted(self@.buffer[i]));
        let ghost moves = Seq::new(self@.moves.len(), |i: int| move_text(self@.moves[i]));
        let mut text = String::new();
        text.append("buffer: ");
        text.append("[");
        let ghost started = text@;
        let mut i: usize = 0;
        assert(text@ =~= started + listed(tokens, 0));
        while i < self.buffer.len()
            invariant
                i <= self.buffer.len(),
                tokens == Seq::new(self@.buffer.len(), |i: int| quoted(self@.buffer[i])),
                text@ == started + listed(tokens, i as int),
            decreases self.buffer.len() - i,
        {
            if i > 0 {
                text.append(", ");
            }
            text.append(quote(&self.buffer[i]).as_str());
            assert(tokens[i as int] == quoted(self.buffer[i as int]@));
            assert(text@ =~= started + listed(tokens, i + 1));
            i = i + 1;
        }
        text.append("]");
        text.append("\n");
        text.append("moves: ");
        text.append("[");
        let ghost resumed = text@;
        let mut j: usize = 0;
        assert(text@ =~= resumed + listed(moves, 0));
        while j < self.moves.len()
            invariant
                j <= self.moves.len(),
                moves == Seq::new(self@.moves.len(), |i: int| move_text(self@.moves[i])),
                text@ == resumed + listed(moves, j as int),
            decreases self.moves.len() - j,
        {
            if j > 0 {
                text.append(", ");
            }
            append_move(&mut text, self.moves[j]);
            assert(text@ =~= resumed + listed(moves, j + 1));
            j = j + 1;
        }
        text.append("]");
        text.append("\n");
        assert(text@ =~= solution_text(self@));
        text
    }
}

} // verus!
