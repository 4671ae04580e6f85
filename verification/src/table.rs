//! Rendering a finished table: padded pipe tables, or compact ones in
//! compressed mode.

use vstd::prelude::*;
use crate::chars::{push_all, repeat};
use crate::state::{
    frames_kept,
    cells_view, rows_view, tables_view, ConvState, Converter, RowV, TableRow, TableState,
};

verus! {

/// The display width of `s` as `unicode_width::UnicodeWidthStr::width` computes it.
pub uninterp spec fn text_width(s: Seq<char>) -> usize;

/// Calls `unicode_width::UnicodeWidthStr::width` on the string of `s`; the
/// result is [`text_width`] of `s`.
#[verifier::external_body]
pub(crate) fn display_width(s: &[char]) -> (w: usize)
    ensures
        w == text_width(s@),
{
    let st: String = s.iter().collect();
    unicode_width::UnicodeWidthStr::width(st.as_str())
}

/// The number of columns: the longest row.
pub open spec fn max_cols(rows: Seq<RowV>) -> nat
    decreases rows.len(),
{
    if rows.len() == 0 {
        0
    } else {
        let a = max_cols(rows.drop_last());
        let b = rows.last().cells.len();
        if b > a {
            b
        } else {
            a
        }
    }
}

/// Whether some row is a header row.
pub open spec fn any_header(rows: Seq<RowV>) -> bool {
    exists|i: int| 0 <= i < rows.len() && (#[trigger] rows[i]).is_header
}

/// Cell `i` of a row, or the empty cell past its end.
pub open spec fn cell_at(cells: Seq<Seq<char>>, i: int) -> Seq<char> {
    if 0 <= i < cells.len() {
        cells[i]
    } else {
        seq![]
    }
}

/// The first `k` cells of a compact row, each after a `|`.
pub open spec fn compact_cells(cells: Seq<Seq<char>>, k: nat) -> Seq<char>
    decreases k,
{
    if k == 0 {
        seq![]
    } else {
        compact_cells(cells, (k - 1) as nat) + seq!['|'] + cell_at(cells, k - 1)
    }
}

/// A compact row: `|a|b|` and a newline.
pub open spec fn compact_row(cells: Seq<Seq<char>>, ncols: nat) -> Seq<char> {
    compact_cells(cells, ncols) + seq!['|', '\n']
}

pub open spec fn compact_sep_cells(k: nat) -> Seq<char>
    decreases k,
{
    if k == 0 {
        seq![]
    } else {
        compact_sep_cells((k - 1) as nat) + seq!['|', '-']
    }
}

/// A compact separator row: `|-|-|` and a newline.
pub open spec fn compact_sep(ncols: nat) -> Seq<char> {
    compact_sep_cells(ncols) + seq!['|', '\n']
}

/// The width of column `i`: at least 3, and at least the display width of
/// each of its cells.
pub open spec fn col_width(rows: Seq<RowV>, i: int) -> usize
    decreases rows.len(),
{
    if rows.len() == 0 {
        3
    } else {
        let a = col_width(rows.drop_last(), i);
        let b: usize = if 0 <= i < rows.last().cells.len() {
            text_width(rows.last().cells[i])
        } else {
            0
        };
        if b > a {
            b
        } else {
            a
        }
    }
}

/// The width of column `i` from the display widths `cw` of the cells, row by
/// row: at least 3, and at least each width given for that column.
pub open spec fn column_width(cw: Seq<Seq<usize>>, i: int) -> usize
    decreases cw.len(),
{
    if cw.len() == 0 {
        3
    } else {
        let a = column_width(cw.drop_last(), i);
        let b: usize = if 0 <= i < cw.last().len() {
            cw.last()[i]
        } else {
            0
        };
        if b > a {
            b
        } else {
            a
        }
    }
}

/// The display widths of the cells of each row.
pub open spec fn cell_widths(rows: Seq<RowV>) -> Seq<Seq<usize>> {
    rows.map_values(|r: RowV| r.cells.map_values(|c: Seq<char>| text_width(c)))
}

/// The contents of nested vectors of widths.
pub open spec fn widths_view(v: Seq<Vec<usize>>) -> Seq<Seq<usize>> {
    v.map_values(|x: Vec<usize>| x@)
}

proof fn lemma_col_width_from_cells(rows: Seq<RowV>, i: int)
    ensures
        col_width(rows, i) == column_width(cell_widths(rows), i),
    decreases rows.len(),
{
    if rows.len() > 0 {
        lemma_col_width_from_cells(rows.drop_last(), i);
        assert(cell_widths(rows.drop_last()) =~= cell_widths(rows).drop_last());
    }
}

proof fn lemma_col_width_bound(rows: Seq<RowV>, r: int, i: int)
    requires
        0 <= r < rows.len(),
        0 <= i < rows[r].cells.len(),
    ensures
        text_width(rows[r].cells[i]) <= col_width(rows, i),
        3 <= col_width(rows, i),
    decreases rows.len(),
{
    if r < rows.len() - 1 {
        lemma_col_width_bound(rows.drop_last(), r, i);
        assert(rows.drop_last()[r] == rows[r]);
    } else if rows.len() > 1 {
        lemma_col_width_min(rows.drop_last(), i);
    }
}

proof fn lemma_col_width_min(rows: Seq<RowV>, i: int)
    ensures
        3 <= col_width(rows, i),
    decreases rows.len(),
{
    if rows.len() > 0 {
        lemma_col_width_min(rows.drop_last(), i);
    }
}

/// Padded columns line up: every cell of a column, with its padding, spans
/// exactly the column's width, which is at least 3 (the separator's dashes).
pub proof fn lemma_cells_fill_column(rows: Seq<RowV>, r: int, i: int)
    requires
        0 <= r < rows.len(),
        0 <= i < rows[r].cells.len(),
    ensures
        text_width(cell_at(rows[r].cells, i)) + pad_len(
            col_width(rows, i),
            text_width(cell_at(rows[r].cells, i)),
        ) == col_width(rows, i),
        col_width(rows, i) >= 3,
{
    lemma_col_width_bound(rows, r, i);
}

/// The widths of the first `ncols` columns.
pub open spec fn col_widths(rows: Seq<RowV>, ncols: nat) -> Seq<usize> {
    Seq::new(ncols, |i: int| col_width(rows, i))
}

/// The spaces that pad a cell of display width `cw` to width `w`.
pub open spec fn pad_len(w: usize, cw: usize) -> nat {
    if w > cw {
        (w - cw) as nat
    } else {
        0
    }
}

/// The first `k` cells of a padded row: ` cell<padding> |` each.
pub open spec fn padded_cells(cells: Seq<Seq<char>>, widths: Seq<usize>, k: nat) -> Seq<char>
    decreases k,
{
    if k == 0 {
        seq![]
    } else {
        let c = cell_at(cells, k - 1);
        padded_cells(cells, widths, (k - 1) as nat) + seq![' '] + c + repeat(
            ' ',
            pad_len(widths[k - 1], text_width(c)),
        ) + seq![' ', '|']
    }
}

/// A padded row: `| a   | b |` and a newline.
pub open spec fn padded_row(cells: Seq<Seq<char>>, widths: Seq<usize>, ncols: nat) -> Seq<char> {
    seq!['|'] + padded_cells(cells, widths, ncols) + seq!['\n']
}

/// The first `k` cells of a padded row, cell `i` taken to be `cw[i]` wide.
pub open spec fn padded_cells_with(
    cells: Seq<Seq<char>>,
    cw: Seq<usize>,
    widths: Seq<usize>,
    k: nat,
) -> Seq<char>
    decreases k,
{
    if k == 0 {
        seq![]
    } else {
        padded_cells_with(cells, cw, widths, (k - 1) as nat) + seq![' '] + cell_at(cells, k - 1)
            + repeat(' ', pad_len(widths[k - 1], cw[k - 1])) + seq![' ', '|']
    }
}

/// A padded row with the cell widths `cw`: `| a   | b |` and a newline.
pub open spec fn padded_row_with(
    cells: Seq<Seq<char>>,
    cw: Seq<usize>,
    widths: Seq<usize>,
    ncols: nat,
) -> Seq<char> {
    seq!['|'] + padded_cells_with(cells, cw, widths, ncols) + seq!['\n']
}

proof fn lemma_padded_cells_with(cells: Seq<Seq<char>>, cw: Seq<usize>, widths: Seq<usize>, k: nat)
    requires
        k <= cw.len(),
        forall|i: int| 0 <= i < k ==> cw[i] == text_width(#[trigger] cell_at(cells, i)),
    ensures
        padded_cells_with(cells, cw, widths, k) == padded_cells(cells, widths, k),
    decreases k,
{
    if k > 0 {
        lemma_padded_cells_with(cells, cw, widths, (k - 1) as nat);
        assert(cw[k - 1] == text_width(cell_at(cells, k - 1)));
    }
}

pub open spec fn padded_sep_cells(widths: Seq<usize>, k: nat) -> Seq<char>
    decreases k,
{
    if k == 0 {
        seq![]
    } else {
        padded_sep_cells(widths, (k - 1) as nat) + seq![' '] + repeat('-', widths[k - 1] as nat)
            + seq![' ', '|']
    }
}

/// A padded separator row: `| --- | --- |` and a newline.
pub open spec fn padded_sep(widths: Seq<usize>, ncols: nat) -> Seq<char> {
    seq!['|'] + padded_sep_cells(widths, ncols) + seq!['\n']
}

/// Emitting rows `i..` of a table, each followed by a separator row when it is
/// a header row, or when it is the first row of a table without header rows.
pub open spec fn table_lines(
    s: ConvState,
    rows: Seq<RowV>,
    ncols: nat,
    widths: Seq<usize>,
    has_header: bool,
    i: nat,
) -> ConvState
    decreases rows.len() - i,
{
    if i >= rows.len() {
        s
    } else {
        let row = rows[i as int];
        let line = if s.compressed {
            compact_row(row.cells, ncols)
        } else {
            padded_row(row.cells, widths, ncols)
        };
        let s1 = s.emit(line);
        let s2 = if row.is_header || (!has_header && i == 0) {
            s1.emit(
                if s1.compressed {
                    compact_sep(ncols)
                } else {
                    padded_sep(widths, ncols)
                },
            )
        } else {
            s1
        };
        table_lines(s2, rows, ncols, widths, has_header, i + 1)
    }
}

/// Closing the innermost table and writing it out.
pub open spec fn finish_table(s: ConvState) -> ConvState {
    let s1 = ConvState { pending_space: false, ..s };
    if s1.tables.len() == 0 {
        s1
    } else {
        let t = s1.tables.last();
        let s2 = ConvState { tables: s1.tables.drop_last(), ..s1 };
        if t.rows.len() == 0 {
            s2
        } else {
            let ncols = max_cols(t.rows);
            table_lines(
                s2,
                t.rows,
                ncols,
                col_widths(t.rows, ncols),
                any_header(t.rows),
                0,
            ).end_block()
        }
    }
}

fn max_cols_exec(rows: &Vec<TableRow>) -> (n: usize)
    ensures
        n == max_cols(rows_view(rows@)),
{
    let mut n: usize = 0;
    let mut i: usize = 0;
    while i < rows.len()
        invariant
            i <= rows@.len(),
            n == max_cols(rows_view(rows@).take(i as int)),
        decreases rows@.len() - i,
    {
        assert(rows_view(rows@).take(i + 1).drop_last() =~= rows_view(rows@).take(i as int));
        let c = rows[i].cells.len();
        if c > n {
            n = c;
        }
        i += 1;
    }
    assert(rows_view(rows@).take(rows@.len() as int) =~= rows_view(rows@));
    n
}

fn any_header_exec(rows: &Vec<TableRow>) -> (r: bool)
    ensures
        r == any_header(rows_view(rows@)),
{
    let mut i: usize = 0;
    while i < rows.len()
        invariant
            i <= rows@.len(),
            forall|j: int| 0 <= j < i ==> !(#[trigger] rows_view(rows@)[j]).is_header,
        decreases rows@.len() - i,
    {
        if rows[i].is_header {
            assert(rows_view(rows@)[i as int].is_header);
            return true;
        }
        i += 1;
    }
    false
}

/// The widths of the first `ncols` columns from the display widths of the
/// cells, row by row: each column at least 3 wide and as wide as its widest cell.
pub fn col_widths_from(cw: &Vec<Vec<usize>>, ncols: usize) -> (w: Vec<usize>)
    ensures
        w@ == Seq::new(ncols as nat, |i: int| column_width(widths_view(cw@), i)),
{
    let ghost cv = widths_view(cw@);
    let mut widths: Vec<usize> = Vec::new();
    let mut k: usize = 0;
    while k < ncols
        invariant
            k <= ncols,
            widths@.len() == k,
            forall|j: int| 0 <= j < k ==> widths@[j] == 3,
        decreases ncols - k,
    {
        widths.push(3);
        k += 1;
    }
    assert(cv.take(0) =~= Seq::<Seq<usize>>::empty());
    let mut r: usize = 0;
    while r < cw.len()
        invariant
            cv == widths_view(cw@),
            r <= cw@.len(),
            widths@.len() == ncols,
            forall|j: int| 0 <= j < ncols ==> widths@[j] == column_width(cv.take(r as int), j),
        decreases cw@.len() - r,
    {
        let row = &cw[r];
        assert(cv.take(r + 1).drop_last() =~= cv.take(r as int));
        assert(cv.take(r + 1).last() == row@);
        let lim: usize = if row.len() < ncols {
            row.len()
        } else {
            ncols
        };
        let mut i: usize = 0;
        while i < lim
            invariant
                cv == widths_view(cw@),
                r < cw@.len(),
                row == cw@[r as int],
                lim <= ncols,
                lim <= row@.len(),
                i <= lim,
                widths@.len() == ncols,
                cv.take(r + 1).drop_last() == cv.take(r as int),
                cv.take(r + 1).last() == row@,
                forall|j: int| 0 <= j < i ==> widths@[j] == column_width(cv.take(r + 1), j),
                forall|j: int| i <= j < ncols ==> widths@[j] == column_width(cv.take(r as int), j),
            decreases lim - i,
        {
            let x = row[i];
            if x > widths[i] {
                widths.set(i, x);
            }
            i += 1;
        }
        assert forall|j: int| 0 <= j < ncols implies widths@[j] == column_width(cv.take(r + 1), j) by {
            if j >= lim {
                assert(j >= row@.len());
            }
        }
        r += 1;
    }
    assert(cv.take(cw@.len() as int) =~= cv);
    assert(widths@ =~= Seq::new(ncols as nat, |i: int| column_width(cv, i)));
    widths
}

fn compute_col_widths(rows: &Vec<TableRow>, ncols: usize) -> (w: Vec<usize>)
    ensures
        w@ == col_widths(rows_view(rows@), ncols as nat),
{
    let ghost rv = rows_view(rows@);
    let mut cw: Vec<Vec<usize>> = Vec::new();
    let mut r: usize = 0;
    while r < rows.len()
        invariant
            rv == rows_view(rows@),
            r <= rows@.len(),
            widths_view(cw@) == cell_widths(rv).take(r as int),
        decreases rows@.len() - r,
    {
        let row = &rows[r];
        let mut ws: Vec<usize> = Vec::new();
        let mut i: usize = 0;
        while i < row.cells.len()
            invariant
                rv == rows_view(rows@),
                r < rows@.len(),
                row == rows@[r as int],
                i <= row.cells@.len(),
                ws@ == cell_widths(rv)[r as int].take(i as int),
            decreases row.cells@.len() - i,
        {
            let x = display_width(row.cells[i].as_slice());
            ws.push(x);
            i += 1;
            assert(ws@ =~= cell_widths(rv)[r as int].take(i as int));
        }
        assert(ws@ =~= cell_widths(rv)[r as int]);
        let ghost before = cw@;
        cw.push(ws);
        assert(widths_view(cw@) =~= widths_view(before).push(cell_widths(rv)[r as int]));
        assert(cell_widths(rv).take(r + 1) =~= cell_widths(rv).take(r as int).push(
            cell_widths(rv)[r as int],
        ));
        r += 1;
    }
    assert(cell_widths(rv).take(rows@.len() as int) =~= cell_widths(rv));
    let w = col_widths_from(&cw, ncols);
    proof {
        assert forall|i: int| 0 <= i < ncols implies w@[i] == col_width(rv, i) by {
            lemma_col_width_from_cells(rv, i);
        }
    }
    assert(w@ =~= col_widths(rv, ncols as nat));
    w
}

fn compact_row_line(cells: &Vec<Vec<char>>, ncols: usize) -> (line: Vec<char>)
    ensures
        line@ == compact_row(cells_view(cells@), ncols as nat),
        line@[0] == '|',
{
    let ghost cv = cells_view(cells@);
    let empty: Vec<char> = Vec::new();
    let mut line: Vec<char> = Vec::new();
    let mut i: usize = 0;
    while i < ncols
        invariant
            cv == cells_view(cells@),
            empty@ == Seq::<char>::empty(),
            i <= ncols,
            line@ == compact_cells(cv, i as nat),
            i > 0 ==> line@[0] == '|',
        decreases ncols - i,
    {
        line.push('|');
        let cell: &Vec<char> = if i < cells.len() {
            &cells[i]
        } else {
            &empty
        };
        assert(cell@ == cell_at(cv, i as int));
        push_all(&mut line, cell.as_slice());
        i += 1;
        assert(line@ =~= compact_cells(cv, i as nat));
    }
    line.push('|');
    line.push('\n');
    assert(line@ =~= compact_row(cv, ncols as nat));
    line
}

fn compact_sep_line(ncols: usize) -> (line: Vec<char>)
    ensures
        line@ == compact_sep(ncols as nat),
        line@[0] == '|',
{
    let mut line: Vec<char> = Vec::new();
    let mut i: usize = 0;
    while i < ncols
        invariant
            i <= ncols,
            line@ == compact_sep_cells(i as nat),
            i > 0 ==> line@[0] == '|',
        decreases ncols - i,
    {
        line.push('|');
        line.push('-');
        i += 1;
        assert(line@ =~= compact_sep_cells(i as nat));
    }
    line.push('|');
    line.push('\n');
    assert(line@ =~= compact_sep(ncols as nat));
    line
}

/// A padded row of the first `ncols` cells: each cell, taken to be
/// `cell_widths[i]` wide, padded with spaces to the column width `widths[i]`.
pub fn padded_row_from(
    cells: &Vec<Vec<char>>,
    cell_widths: &Vec<usize>,
    widths: &Vec<usize>,
    ncols: usize,
) -> (line: Vec<char>)
    requires
        widths@.len() == ncols,
        cell_widths@.len() == ncols,
    ensures
        line@ == padded_row_with(cells_view(cells@), cell_widths@, widths@, ncols as nat),
        line@[0] == '|',
{
    let ghost cv = cells_view(cells@);
    let empty: Vec<char> = Vec::new();
    let mut line: Vec<char> = Vec::new();
    line.push('|');
    let mut i: usize = 0;
    while i < ncols
        invariant
            cv == cells_view(cells@),
            empty@ == Seq::<char>::empty(),
            widths@.len() == ncols,
            cell_widths@.len() == ncols,
            i <= ncols,
            line@ == seq!['|'] + padded_cells_with(cv, cell_widths@, widths@, i as nat),
        decreases ncols - i,
    {
        line.push(' ');
        let cell: &Vec<char> = if i < cells.len() {
            &cells[i]
        } else {
            &empty
        };
        assert(cell@ == cell_at(cv, i as int));
        push_all(&mut line, cell.as_slice());
        let cw = cell_widths[i];
        let w = widths[i];
        let pad: usize = if w > cw {
            w - cw
        } else {
            0
        };
        let ghost before = line@;
        let mut k: usize = 0;
        while k < pad
            invariant
                k <= pad,
                line@ == before + repeat(' ', k as nat),
            decreases pad - k,
        {
            line.push(' ');
            k += 1;
            assert(line@ =~= before + repeat(' ', k as nat));
        }
        line.push(' ');
        line.push('|');
        i += 1;
        assert(line@ =~= seq!['|'] + padded_cells_with(cv, cell_widths@, widths@, i as nat));
    }
    line.push('\n');
    assert(line@ =~= padded_row_with(cv, cell_widths@, widths@, ncols as nat));
    line
}

fn padded_row_line(cells: &Vec<Vec<char>>, widths: &Vec<usize>, ncols: usize) -> (line: Vec<char>)
    requires
        widths@.len() == ncols,
    ensures
        line@ == padded_row(cells_view(cells@), widths@, ncols as nat),
        line@[0] == '|',
{
    let ghost cv = cells_view(cells@);
    let empty: Vec<char> = Vec::new();
    let mut cw: Vec<usize> = Vec::new();
    let mut i: usize = 0;
    while i < ncols
        invariant
            cv == cells_view(cells@),
            empty@ == Seq::<char>::empty(),
            i <= ncols,
            cw@.len() == i,
            forall|j: int| 0 <= j < i ==> cw@[j] == text_width(#[trigger] cell_at(cv, j)),
        decreases ncols - i,
    {
        let cell: &Vec<char> = if i < cells.len() {
            &cells[i]
        } else {
            &empty
        };
        assert(cell@ == cell_at(cv, i as int));
        cw.push(display_width(cell.as_slice()));
        i += 1;
    }
    let line = padded_row_from(cells, &cw, widths, ncols);
    proof {
        lemma_padded_cells_with(cv, cw@, widths@, ncols as nat);
    }
    line
}

fn padded_sep_line(widths: &Vec<usize>, ncols: usize) -> (line: Vec<char>)
    requires
        widths@.len() == ncols,
    ensures
        line@ == padded_sep(widths@, ncols as nat),
        line@[0] == '|',
{
    let mut line: Vec<char> = Vec::new();
    line.push('|');
    let mut i: usize = 0;
    while i < ncols
        invariant
            widths@.len() == ncols,
            i <= ncols,
            line@ == seq!['|'] + padded_sep_cells(widths@, i as nat),
        decreases ncols - i,
    {
        line.push(' ');
        let w = widths[i];
        let ghost before = line@;
        let mut k: usize = 0;
        while k < w
            invariant
                k <= w,
                line@ == before + repeat('-', k as nat),
            decreases w - k,
        {
            line.push('-');
            k += 1;
            assert(line@ =~= before + repeat('-', k as nat));
        }
        line.push(' ');
        line.push('|');
        i += 1;
        assert(line@ =~= seq!['|'] + padded_sep_cells(widths@, i as nat));
    }
    line.push('\n');
    assert(line@ =~= padded_sep(widths@, ncols as nat));
    line
}

impl Converter {
    /// Closes the innermost table and writes it out.
    pub fn finish_table(&mut self)
        ensures
            frames_kept(old(self)@, final(self)@),
            old(self)@.tracks_output() ==> final(self)@.tracks_output(),
            final(self)@ == finish_table(old(self)@),
    {
        self.pending_space = false;
        let table: TableState = match self.table_stack.pop() {
            None => {
                return;
            },
            Some(t) => t,
        };
        assert(tables_view(self.table_stack@) =~= old(self)@.tables.drop_last());
        if table.rows.len() == 0 {
            return;
        }
        let ghost rv = rows_view(table.rows@);
        let ncols = max_cols_exec(&table.rows);
        let has_header = any_header_exec(&table.rows);
        let widths: Vec<usize> = if self.compressed {
            Vec::new()
        } else {
            compute_col_widths(&table.rows, ncols)
        };
        let ghost full_widths = col_widths(rv, ncols as nat);
        let ghost s2 = self@;
        let mut idx: usize = 0;
        while idx < table.rows.len()
            invariant
                rv == rows_view(table.rows@),
                idx <= table.rows@.len(),
                self@.compressed == s2.compressed,
                !self@.pending_space,
                frames_kept(old(self)@, self@),
                old(self)@.tracks_output() ==> self@.tracks_output(),
                !self.compressed ==> widths@ == full_widths,
                widths@.len() == ncols || self.compressed,
                table_lines(s2, rv, ncols as nat, full_widths, has_header, 0) == table_lines(
                    self@,
                    rv,
                    ncols as nat,
                    full_widths,
                    has_header,
                    idx as nat,
                ),
            decreases table.rows@.len() - idx,
        {
            let row = &table.rows[idx];
            assert(rv[idx as int] == row@);
            let line = if self.compressed {
                compact_row_line(&row.cells, ncols)
            } else {
                padded_row_line(&row.cells, &widths, ncols)
            };
            self.emit(line.as_slice());
            if row.is_header || (!has_header && idx == 0) {
                let sep = if self.compressed {
                    compact_sep_line(ncols)
                } else {
                    padded_sep_line(&widths, ncols)
                };
                self.emit(sep.as_slice());
            }
            idx += 1;
        }
        self.end_block();
    }
}

} // verus!
