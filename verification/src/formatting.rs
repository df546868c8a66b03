//! Sparse per-cell formatting overlay. Entries are keyed by (row, column);
//! a missing key means default formatting. After a structural grid edit the
//! caller invokes the matching shift operation exactly once so every entry
//! keeps pointing at the same logical cell.
use crate::cellmap::{
    col_deleted_map, col_inserted_map, row_deleted_map, row_inserted_map, CellMap,
};
use vstd::prelude::*;

verus! {

/// Visual attributes of one cell. Colors are RGBA quadruples.
#[derive(Clone, Copy, Debug)]
pub struct CellFormat {
    pub bg_color: Option<[u8; 4]>,
    pub text_color: Option<[u8; 4]>,
    pub bold: bool,
    pub italic: bool,
}

impl Default for CellFormat {
    /// All attributes absent: the default look.
    fn default() -> (r: Self)
        ensures
            r == (CellFormat { bg_color: None, text_color: None, bold: false, italic: false }),
    {
        CellFormat { bg_color: None, text_color: None, bold: false, italic: false }
    }
}

impl CellFormat {
    pub fn with_bg(color: [u8; 4]) -> (r: Self)
        ensures
            r == (CellFormat { bg_color: Some(color), text_color: None, bold: false, italic: false }),
    {
        CellFormat { bg_color: Some(color), text_color: None, bold: false, italic: false }
    }

    pub fn with_text_color(color: [u8; 4]) -> (r: Self)
        ensures
            r == (CellFormat { bg_color: None, text_color: Some(color), bold: false, italic: false }),
    {
        CellFormat { bg_color: None, text_color: Some(color), bold: false, italic: false }
    }

    pub fn bold() -> (r: Self)
        ensures
            r == (CellFormat { bg_color: None, text_color: None, bold: true, italic: false }),
    {
        CellFormat { bg_color: None, text_color: None, bold: true, italic: false }
    }
}

/// Container for all cell formatting, viewed as a map from (row, column)
/// to the cell's attributes.
#[derive(Clone, Debug)]
pub struct FormatMap {
    cells: CellMap<CellFormat>,
}

impl View for FormatMap {
    type V = Map<(usize, usize), CellFormat>;

    closed spec fn view(&self) -> Map<(usize, usize), CellFormat> {
        self.cells@
    }
}

impl FormatMap {
    pub closed spec fn wf(self) -> bool {
        self.cells.wf()
    }

    pub fn new() -> (r: Self)
        ensures
            r.wf(),
            r@ == Map::<(usize, usize), CellFormat>::empty(),
    {
        FormatMap { cells: CellMap::new() }
    }

    pub fn get(&self, row: usize, col: usize) -> (r: Option<&CellFormat>)
        requires
            self.wf(),
        ensures
            r is Some <==> self@.contains_key((row, col)),
            r matches Some(f) ==> *f == self@[(row, col)],
    {
        self.cells.get(row, col)
    }

    pub fn set(&mut self, row: usize, col: usize, format: CellFormat)
        requires
            old(self).wf(),
        ensures
            final(self).wf(),
            final(self)@ == old(self)@.insert((row, col), format),
    {
        self.cells.insert(row, col, format);
    }

    pub fn remove(&mut self, row: usize, col: usize)
        requires
            old(self).wf(),
        ensures
            final(self).wf(),
            final(self)@ == old(self)@.remove((row, col)),
    {
        self.cells.remove(row, col);
    }

    pub fn clear(&mut self)
        ensures
            final(self).wf(),
            final(self)@ == Map::<(usize, usize), CellFormat>::empty(),
    {
        self.cells.clear();
    }

    pub fn is_empty(&self) -> (r: bool)
        requires
            self.wf(),
        ensures
            r <==> self@ == Map::<(usize, usize), CellFormat>::empty(),
    {
        self.cells.is_empty()
    }

    /// The stored entries, in insertion order.
    pub fn entries(&self) -> (r: Vec<crate::cellmap::Entry<CellFormat>>)
        requires
            self.wf(),
        ensures
            crate::cellmap::distinct_keys(r@),
            crate::cellmap::map_of(r@) == self@,
    {
        self.cells.entries()
    }

    /// After the grid deleted the row at `deleted_row`: entries on that row
    /// are dropped, entries on greater rows move up by one.
    pub fn shift_rows_up(&mut self, deleted_row: usize)
        requires
            old(self).wf(),
        ensures
            final(self).wf(),
            final(self)@ == row_deleted_map(old(self)@, deleted_row),
    {
        self.cells.shift_rows_up(deleted_row);
    }

    /// After the grid inserted a row at `inserted_row`: entries on that row
    /// or below move down by one.
    pub fn shift_rows_down(&mut self, inserted_row: usize)
        requires
            old(self).wf(),
            forall|k: (usize, usize)| old(self)@.contains_key(k) ==> k.0 < usize::MAX,
        ensures
            final(self).wf(),
            final(self)@ == row_inserted_map(old(self)@, inserted_row),
    {
        self.cells.shift_rows_down(inserted_row);
    }

    /// After the grid deleted the column at `deleted_col`: entries on that
    /// column are dropped, entries on greater columns move left by one.
    pub fn shift_cols_left(&mut self, deleted_col: usize)
        requires
            old(self).wf(),
        ensures
            final(self).wf(),
            final(self)@ == col_deleted_map(old(self)@, deleted_col),
    {
        self.cells.shift_cols_left(deleted_col);
    }

    /// After the grid inserted a column at `inserted_col`: entries on that
    /// column or to its right move right by one.
    pub fn shift_cols_right(&mut self, inserted_col: usize)
        requires
            old(self).wf(),
            forall|k: (usize, usize)| old(self)@.contains_key(k) ==> k.1 < usize::MAX,
        ensures
            final(self).wf(),
            final(self)@ == col_inserted_map(old(self)@, inserted_col),
    {
        self.cells.shift_cols_right(inserted_col);
    }
}

} // verus!
