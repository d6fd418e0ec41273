//! Columns with fixed schemas, and tables of equal-length columns with
//! row-wise insertion and bar-delimited text rendering.

use vstd::prelude::*;
use vstd::string::StringExecFns;
use crate::cell::{Cell, CellType};

verus! {

/// A named, typed column declaration.
#[derive(Debug)]
pub struct ColSchema {
    pub name: String,
    pub col_type: CellType,
}

impl ColSchema {
    /// Builds a schema holding the name and type verbatim.
    pub fn new(name: &str, col_type: CellType) -> (r: ColSchema)
        ensures
            r.name@ == name@,
            r.col_type == col_type,
    {
        ColSchema { name: String::from_str(name), col_type }
    }
}

/// An ordered sequence of cells sharing one schema.
#[derive(Debug)]
pub struct Column {
    pub schema: ColSchema,
    pub cells: Vec<Cell>,
}

impl Column {
    /// Builds an empty column owning `schema`.
    pub fn new(schema: ColSchema) -> (r: Column)
        ensures
            r.schema == schema,
            r.cells@ == Seq::<Cell>::empty(),
    {
        Column { schema, cells: Vec::new() }
    }

    /// Appends a cell at the end of the column. No type check happens
    /// here; the caller pairs cells with columns.
    pub fn add_cell(&mut self, cell: Cell)
        ensures
            final(self).schema == old(self).schema,
            final(self).cells@ == old(self).cells@.push(cell),
    {
        self.cells.push(cell);
    }
}

/// The header segment of one column: `name:Type`, a space, a bar and a
/// space.
pub open spec fn schema_text(s: ColSchema) -> Seq<char> {
    s.name@ + ":"@ + s.col_type.spec_label() + " | "@
}

/// The header segments of the first `n` columns, in order.
pub open spec fn header_cells(cols: Seq<Column>, n: int) -> Seq<char>
    decreases n,
{
    if n <= 0 {
        Seq::empty()
    } else {
        header_cells(cols, n - 1) + schema_text(cols[n - 1].schema)
    }
}

/// The stored texts of row `r` across the first `n` columns, each followed
/// by a space, a bar and a space.
pub open spec fn row_cells(cols: Seq<Column>, n: int, r: int) -> Seq<char>
    decreases n,
{
    if n <= 0 {
        Seq::empty()
    } else {
        row_cells(cols, n - 1, r) + cols[n - 1].cells@[r].value@ + " | "@
    }
}

/// The first `h` body lines, each a leading bar, the row's cell segments
/// and a newline.
pub open spec fn rows_text(cols: Seq<Column>, h: int) -> Seq<char>
    decreases h,
{
    if h <= 0 {
        Seq::empty()
    } else {
        rows_text(cols, h - 1) + "|"@ + row_cells(cols, cols.len() as int, h - 1) + "\n"@
    }
}

/// An ordered sequence of columns of equal length.
#[derive(Debug)]
pub struct Table {
    pub columns: Vec<Column>,
}

impl Table {
    /// The number of columns.
    pub open spec fn spec_width(self) -> nat {
        self.columns@.len()
    }

    /// The number of complete rows: the first column's length, or 0 with
    /// no columns.
    pub open spec fn spec_height(self) -> nat {
        if self.columns@.len() == 0 {
            0
        } else {
            self.columns@[0].cells@.len()
        }
    }

    /// Every column holds exactly one cell per row.
    pub open spec fn wf(self) -> bool {
        forall|j: int|
            0 <= j < self.columns@.len() ==> (#[trigger] self.columns@[j]).cells@.len()
                == self.spec_height()
    }

    /// Builds a table with one empty column per schema, in order.
    pub fn new(schema: Vec<ColSchema>) -> (t: Table)
        ensures
            t.wf(),
            t.spec_width() == schema@.len(),
            t.spec_height() == 0,
            forall|j: int|
                0 <= j < schema@.len() ==> (#[trigger] t.columns@[j]).schema == schema@[j]
                    && t.columns@[j].cells@ == Seq::<Cell>::empty(),
    {
        let ghost orig = schema@;
        let mut schema = schema;
        let mut columns: Vec<Column> = Vec::new();
        while schema.len() > 0
            invariant
                columns@.len() + schema@.len() == orig.len(),
                schema@ == orig.subrange(columns@.len() as int, orig.len() as int),
                forall|j: int|
                    0 <= j < columns@.len() ==> (#[trigger] columns@[j]).schema == orig[j]
                        && columns@[j].cells@ == Seq::<Cell>::empty(),
            decreases schema@.len(),
        {
            let s = schema.remove(0);
            proof {
                assert(s == orig[columns@.len() as int]);
                assert(schema@ =~= orig.subrange(columns@.len() as int + 1, orig.len() as int));
            }
            columns.push(Column::new(s));
        }
        Table { columns }
    }

    /// Returns the number of rows.
    pub fn height(&self) -> (h: usize)
        ensures
            h == self.spec_height(),
            self.wf() ==> forall|j: int|
                0 <= j < self.columns@.len() ==> (#[trigger] self.columns@[j]).cells@.len() == h,
    {
        if self.columns.len() == 0 {
            0
        } else {
            self.columns[0].cells.len()
        }
    }

    /// Returns the number of columns.
    pub fn width(&self) -> (w: usize)
        ensures
            w == self.spec_width(),
    {
        self.columns.len()
    }

    /// Distributes one row of cells into the columns: the cell at position
    /// `i` is appended to column `i`, and the row buffer is drained. The
    /// caller supplies exactly one cell per column.
    #[verifier::loop_isolation(false)]
    pub fn add_row(&mut self, cells: &mut Vec<Cell>)
        requires
            old(self).wf(),
            old(cells)@.len() == old(self).spec_width(),
        ensures
            final(self).wf(),
            final(self).spec_width() == old(self).spec_width(),
            old(self).spec_width() > 0 ==> final(self).spec_height() == old(self).spec_height()
                + 1,
            old(self).spec_width() == 0 ==> final(self).columns@ == old(self).columns@,
            forall|j: int|
                0 <= j < old(self).columns@.len() ==> (#[trigger] final(self).columns@[j]).schema
                    == old(self).columns@[j].schema && final(self).columns@[j].cells@
                    == old(self).columns@[j].cells@.push(old(cells)@[j]),
            final(cells)@ == Seq::<Cell>::empty(),
    {
        let w = self.columns.len();
        let mut i: usize = 0;
        while i < w
            invariant
                i <= w,
                self.columns@.len() == w,
                cells@ == old(cells)@.subrange(i as int, w as int),
                forall|j: int|
                    0 <= j < i ==> (#[trigger] self.columns@[j]).schema
                        == old(self).columns@[j].schema && self.columns@[j].cells@
                        == old(self).columns@[j].cells@.push(old(cells)@[j]),
                forall|j: int| i <= j < w ==> self.columns@[j] == old(self).columns@[j],
            decreases w - i,
        {
            let c = cells.remove(0);
            proof {
                assert(c == old(cells)@[i as int]);
                assert(cells@ =~= old(cells)@.subrange(i as int + 1, w as int));
            }
            self.columns[i].add_cell(c);
            i = i + 1;
        }
        proof {
            assert(cells@ =~= Seq::<Cell>::empty());
            if w == 0 {
                assert(self.columns@ =~= old(self).columns@);
            }
        }
    }

    /// Distributes one row of cells into the columns if the row has
    /// exactly one cell per column; otherwise reports failure, leaving the
    /// table and the row buffer untouched.
    pub fn try_add_row(&mut self, cells: &mut Vec<Cell>) -> (ok: bool)
        requires
            old(self).wf(),
        ensures
            ok == (old(cells)@.len() == old(self).spec_width()),
            final(self).wf(),
            ok ==> final(self).spec_width() == old(self).spec_width(),
            ok && old(self).spec_width() > 0 ==> final(self).spec_height()
                == old(self).spec_height() + 1,
            ok ==> forall|j: int|
                0 <= j < old(self).columns@.len() ==> (#[trigger] final(self).columns@[j]).schema
                    == old(self).columns@[j].schema && final(self).columns@[j].cells@
                    == old(self).columns@[j].cells@.push(old(cells)@[j]),
            ok ==> final(cells)@ == Seq::<Cell>::empty(),
            !ok ==> *final(self) == *old(self) && *final(cells) == *old(cells),
    {
        if cells.len() == self.columns.len() {
            self.add_row(cells);
            true
        } else {
            false
        }
    }

    /// The whole rendering: a header line of `name:Type` segments, then
    /// one line per row of stored cell texts, every line opened by a bar
    /// and closed by a newline.
    pub open spec fn render_spec(self) -> Seq<char> {
        "|"@ + header_cells(self.columns@, self.columns@.len() as int) + "\n"@ + rows_text(
            self.columns@,
            self.spec_height() as int,
        )
    }

    /// Renders the table as its bar-delimited text grid. Reading the
    /// table changes nothing, and the result is a function of the table's
    /// contents alone: rendering twice gives the same string.
    #[verifier::loop_isolation(false)]
    pub fn to_display_string(&self) -> (r: String)
        requires
            self.wf(),
        ensures
            r@ == self.render_spec(),
    {
        let w = self.columns.len();
        let h = self.height();
        let mut out = String::from_str("|");
        let mut j: usize = 0;
        while j < w
            invariant
                j <= w,
                out@ == "|"@ + header_cells(self.columns@, j as int),
            decreases w - j,
        {
            out.append(self.columns[j].schema.name.as_str());
            out.append(":");
            let lab = self.columns[j].schema.col_type.label();
            out.append(lab.as_str());
            out.append(" | ");
            proof {
                assert(out@ =~= "|"@ + header_cells(self.columns@, j as int + 1));
            }
            j = j + 1;
        }
        out.append("\n");
        let ghost head = out@;
        proof {
            assert(head == "|"@ + header_cells(self.columns@, w as int) + "\n"@);
        }
        let mut rix: usize = 0;
        while rix < h
            invariant
                rix <= h,
                out@ == head + rows_text(self.columns@, rix as int),
            decreases h - rix,
        {
            out.append("|");
            let ghost line_start = out@;
            let mut j2: usize = 0;
            while j2 < w
                invariant
                    j2 <= w,
                    out@ == line_start + row_cells(self.columns@, j2 as int, rix as int),
                decreases w - j2,
            {
                out.append(self.columns[j2].cells[rix].value.as_str());
                out.append(" | ");
                proof {
                    assert(out@ =~= line_start + row_cells(self.columns@, j2 as int + 1, rix as int));
                }
                j2 = j2 + 1;
            }
            out.append("\n");
            proof {
                assert(out@ =~= head + rows_text(self.columns@, rix as int + 1));
            }
            rix = rix + 1;
        }
        out
    }
}

} // verus!
