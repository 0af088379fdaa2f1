//! A table of text: rows of cells that are laid out in columns, each column
//! as wide as its widest cell.

use crate::text::{push_str, string_of};
use pad::PadStr;
use vstd::prelude::*;
use vstd::utf8::encode_utf8;

verus! {

/// What `pad::PadStr::pad_to_width` returns for a text and a width.
pub uninterp spec fn padded(s: Seq<char>, width: nat) -> Seq<char>;

/// `pad::PadStr::pad_to_width` of the crate `pad`: the text, followed by as
/// many spaces as it lacks to the width in columns of a terminal. The result
/// depends on the text and the width alone and goes by the name `padded`.
#[verifier::external_body]
fn pad_cell(s: &str, width: usize) -> (r: String)
    ensures
        r@ == padded(s@, width as nat),
{
    s.pad_to_width(width)
}

/// Mathematical model of a [`Table`]: the number of columns, the width of
/// each column and the rows of cells, the heading first.
pub struct TableModel {
    pub n_cols: nat,
    pub widths: Seq<nat>,
    pub data: Seq<Seq<Seq<char>>>,
}

/// The width of a cell: the number of bytes of its text.
pub open spec fn cell_width(cell: Seq<char>) -> nat {
    encode_utf8(cell).len()
}

/// The number of bytes of a text.
fn byte_len(s: &str) -> (r: usize)
    ensures
        r == cell_width(s@),
{
    s.as_bytes().len()
}

/// The texts of the cells of a row.
pub open spec fn row_model(row: Seq<String>) -> Seq<Seq<char>> {
    Seq::new(row.len(), |i: int| row[i]@)
}

/// The widths of the cells of a row.
pub open spec fn row_widths(row: Seq<Seq<char>>) -> Seq<nat> {
    Seq::new(row.len(), |i: int| cell_width(row[i]))
}

/// The widths of the columns after a row is taken in: each the larger of
/// what it was and the width of the cell of the row.
pub open spec fn widened(widths: Seq<nat>, row: Seq<Seq<char>>) -> Seq<nat> {
    Seq::new(
        widths.len(),
        |i: int|
            if i < row.len() && cell_width(row[i]) > widths[i] {
                cell_width(row[i])
            } else {
                widths[i]
            },
    )
}

/// The first `n` cells of a row, each followed by two spaces.
pub open spec fn cells_text(cells: Seq<Seq<char>>, n: int) -> Seq<char>
    decreases n,
{
    if n <= 0 {
        Seq::empty()
    } else {
        cells_text(cells, n - 1) + cells[n - 1] + "  "@
    }
}

/// The first `n` rows, each followed by a line break.
pub open spec fn rows_text(rows: Seq<Seq<Seq<char>>>, n: int) -> Seq<char>
    decreases n,
{
    if n <= 0 {
        Seq::empty()
    } else {
        rows_text(rows, n - 1) + cells_text(rows[n - 1], rows[n - 1].len() as int) + "\n"@
    }
}

/// The rows with every cell padded to the width of its column.
pub open spec fn padded_rows(m: TableModel) -> Seq<Seq<Seq<char>>> {
    Seq::new(
        m.data.len(),
        |r: int| Seq::new(m.data[r].len(), |c: int| padded(m.data[r][c], m.widths[c])),
    )
}

/// Lays out rows of cells: every cell is followed by two spaces and every
/// row by a line break.
pub fn layout(rows: &Vec<Vec<String>>) -> (r: String)
    ensures
        r@ == rows_text(Seq::new(rows@.len(), |i: int| row_model(rows@[i]@)), rows@.len() as int),
{
    let ghost m = Seq::new(rows@.len(), |i: int| row_model(rows@[i]@));
    let mut buf: Vec<char> = Vec::new();
    let mut r: usize = 0;
    while r < rows.len()
        invariant
            r <= rows@.len(),
            m == Seq::new(rows@.len(), |i: int| row_model(rows@[i]@)),
            buf@ == rows_text(m, r as int),
        decreases rows@.len() - r,
    {
        let row = &rows[r];
        let ghost before = buf@;
        let mut c: usize = 0;
        while c < row.len()
            invariant
                c <= row@.len(),
                r < rows@.len(),
                row@ == rows@[r as int]@,
                m == Seq::new(rows@.len(), |i: int| row_model(rows@[i]@)),
                buf@ == before + cells_text(m[r as int], c as int),
            decreases row@.len() - c,
        {
            push_str(&mut buf, row[c].as_str());
            push_str(&mut buf, "  ");
            assert(m[r as int][c as int] == row@[c as int]@);
            c += 1;
        }
        push_str(&mut buf, "\n");
        r += 1;
    }
    string_of(&buf)
}

/// A table of text.
#[must_use]
pub struct Table {
    n_cols: usize,
    widths: Vec<usize>,
    data: Vec<Vec<String>>,
}

impl View for Table {
    type V = TableModel;

    closed spec fn view(&self) -> TableModel {
        TableModel {
            n_cols: self.n_cols as nat,
            widths: Seq::new(self.widths@.len(), |i: int| self.widths@[i] as nat),
            data: Seq::new(self.data@.len(), |i: int| row_model(self.data@[i]@)),
        }
    }
}

/// Whether a table has a heading, as many widths as columns, and as many
/// cells in every row.
pub open spec fn shaped(m: TableModel) -> bool {
    &&& m.data.len() >= 1
    &&& m.widths.len() == m.n_cols
    &&& forall|r: int| 0 <= r < m.data.len() ==> (#[trigger] m.data[r]).len() == m.n_cols
}

impl Table {
    /// The table that holds the heading alone; every column is as wide as
    /// its heading.
    pub fn new(header: Vec<String>) -> (r: Table)
        ensures
            shaped(r@),
            r@.n_cols == header@.len(),
            r@.data == seq![row_model(header@)],
            r@.widths == row_widths(row_model(header@)),
    {
        let mut widths: Vec<usize> = Vec::new();
        let mut i: usize = 0;
        while i < header.len()
            invariant
                i <= header@.len(),
                widths@.len() == i,
                forall|k: int| 0 <= k < i ==> #[trigger] widths@[k] == cell_width(header@[k]@),
            decreases header@.len() - i,
        {
            widths.push(byte_len(header[i].as_str()));
            i += 1;
        }
        let n_cols = header.len();
        let ghost head = row_model(header@);
        let mut data: Vec<Vec<String>> = Vec::new();
        data.push(header);
        let r = Table { n_cols, widths, data };
        proof {
            assert(r@.data =~= seq![head]);
            assert(r@.widths =~= row_widths(head));
        }
        r
    }

    /// Puts a row under the rows of the table and widens the columns to its
    /// cells.
    pub fn add_row(&mut self, row: Vec<String>)
        requires
            shaped(old(self)@),
            row@.len() == old(self)@.n_cols,
        ensures
            shaped(final(self)@),
            final(self)@.n_cols == old(self)@.n_cols,
            final(self)@.data == old(self)@.data.push(row_model(row@)),
            final(self)@.widths == widened(old(self)@.widths, row_model(row@)),
    {
        let ghost added = row_model(row@);
        self.data.push(row);
        assert(self@.data =~= old(self)@.data.push(added));
        self.update_widths();
    }

    /// Widens every column to the cell that the last row has in it.
    pub fn update_widths(&mut self)
        requires
            shaped(old(self)@),
        ensures
            shaped(final(self)@),
            final(self)@.n_cols == old(self)@.n_cols,
            final(self)@.data == old(self)@.data,
            final(self)@.widths == widened(old(self)@.widths, old(self)@.data.last()),
    {
        let last = self.data.len() - 1;
        let ghost row = self@.data[last as int];
        let ghost before = self@.widths;
        assert(self.data@[last as int]@.len() == self.widths@.len()) by {
            assert(self@.data[last as int].len() == self@.n_cols);
        }
        let mut i: usize = 0;
        while i < self.widths.len()
            invariant
                i <= self.widths@.len(),
                last == self.data@.len() - 1,
                self.data@ == old(self).data@,
                self.n_cols == old(self).n_cols,
                self.widths@.len() == before.len(),
                self.data@[last as int]@.len() == self.widths@.len(),
                row == row_model(self.data@[last as int]@),
                forall|k: int|
                    0 <= k < i ==> #[trigger] self.widths@[k] as nat == widened(before, row)[k],
                forall|k: int|
                    i <= k < before.len() ==> #[trigger] self.widths@[k] as nat == before[k],
            decreases self.widths@.len() - i,
        {
            let len = byte_len(self.data[last][i].as_str());
            if len > self.widths[i] {
                self.widths[i] = len;
            }
            i += 1;
        }
        assert(self@.widths =~= widened(before, row));
        assert(self@.data =~= old(self)@.data);
    }

    /// The table as text: every cell padded to the width of its column and
    /// followed by two spaces, every row followed by a line break.
    pub fn to_string(&self) -> (r: String)
        requires
            shaped(self@),
        ensures
            r@ == rows_text(padded_rows(self@), self@.data.len() as int),
    {
        let mut rows: Vec<Vec<String>> = Vec::new();
        let mut r: usize = 0;
        while r < self.data.len()
            invariant
                r <= self.data@.len(),
                shaped(self@),
                rows@.len() == r,
                forall|k: int|
                    0 <= k < r ==> row_model(#[trigger] rows@[k]@) == padded_rows(self@)[k],
            decreases self.data@.len() - r,
        {
            let mut cells: Vec<String> = Vec::new();
            let mut c: usize = 0;
            assert(self@.data[r as int].len() == self@.n_cols);
            while c < self.data[r].len()
                invariant
                    r < self.data@.len(),
                    c <= self.data@[r as int]@.len(),
                    self.data@[r as int]@.len() == self.widths@.len(),
                    cells@.len() == c,
                    forall|k: int|
                        0 <= k < c ==> (#[trigger] cells@[k])@ == padded(
                            self.data@[r as int]@[k]@,
                            self.widths@[k] as nat,
                        ),
                decreases self.data@[r as int]@.len() - c,
            {
                cells.push(pad_cell(self.data[r][c].as_str(), self.widths[c]));
                c += 1;
            }
            assert(row_model(cells@) =~= padded_rows(self@)[r as int]);
            rows.push(cells);
            r += 1;
        }
        assert(Seq::new(rows@.len(), |i: int| row_model(rows@[i]@)) =~= padded_rows(self@));
        layout(&rows)
    }
}

} // verus!
