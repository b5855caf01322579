//! The sheet model every generator renders into: styled cell writes, format
//! overrides, merge ranges and row groups, plus the thin trusted layer that
//! hands a finished [`SheetOps`] to a `rust_xlsxwriter` worksheet.

use vstd::prelude::*;

use rust_xlsxwriter::{Color, Format, FormatBorder, Worksheet, XlsxError};

verus! {

/// The style vocabulary of the generators: a thin border on any of the four
/// sides, and an optional white background.
#[derive(Debug, Clone, Copy, PartialEq, Eq, Structural)]
pub struct CellStyle {
    pub top: bool,
    pub bottom: bool,
    pub left: bool,
    pub right: bool,
    pub white: bool,
}

/// A thin border on all four sides, white when `white` is set.
pub open spec fn full_border(white: bool) -> CellStyle {
    CellStyle { top: true, bottom: true, left: true, right: true, white }
}

/// An executable [`full_border`].
pub fn full_border_style(white: bool) -> (r: CellStyle)
    ensures
        r == full_border(white),
{
    CellStyle { top: true, bottom: true, left: true, right: true, white }
}

/// Mathematical model of a [`CellWrite`].
#[verifier::ext_equal]
pub struct CellWriteView {
    pub row: u32,
    pub col: u16,
    pub text: Seq<char>,
    pub style: CellStyle,
}

/// One cell write: text and style at a 0-based row and column.
#[derive(Debug, Clone)]
pub struct CellWrite {
    pub row: u32,
    pub col: u16,
    pub text: String,
    pub style: CellStyle,
}

impl View for CellWrite {
    type V = CellWriteView;

    open spec fn view(&self) -> CellWriteView {
        CellWriteView { row: self.row, col: self.col, text: self.text@, style: self.style }
    }
}

/// Mathematical model of a [`MergeWrite`].
#[verifier::ext_equal]
pub struct MergeWriteView {
    pub first_row: u32,
    pub first_col: u16,
    pub last_row: u32,
    pub last_col: u16,
    pub text: Seq<char>,
    pub style: CellStyle,
}

/// One merge range: the rectangle, the text shown in its top-left cell, and
/// the style applied across it.
#[derive(Debug, Clone)]
pub struct MergeWrite {
    pub first_row: u32,
    pub first_col: u16,
    pub last_row: u32,
    pub last_col: u16,
    pub text: String,
    pub style: CellStyle,
}

impl View for MergeWrite {
    type V = MergeWriteView;

    open spec fn view(&self) -> MergeWriteView {
        MergeWriteView {
            first_row: self.first_row,
            first_col: self.first_col,
            last_row: self.last_row,
            last_col: self.last_col,
            text: self.text@,
            style: self.style,
        }
    }
}

/// A format override of one already-written cell.
#[derive(Debug, Clone, Copy, PartialEq, Eq, Structural)]
pub struct FormatWrite {
    pub row: u32,
    pub col: u16,
    pub style: CellStyle,
}

/// One collapsible row-group directive over an inclusive 0-based row range.
#[derive(Debug, Clone, Copy, PartialEq, Eq, Structural)]
pub struct RowGroup {
    pub first_row: u32,
    pub last_row: u32,
}

/// Mathematical model of a [`SheetOps`].
#[verifier::ext_equal]
pub struct SheetOpsView {
    pub whitewash: bool,
    pub cells: Seq<CellWriteView>,
    pub formats: Seq<FormatWrite>,
    pub merges: Seq<MergeWriteView>,
    pub groups: Seq<RowGroup>,
}

/// Everything a generator asks of the spreadsheet writer, in application
/// order: an optional all-column white fill, then the cell writes, then the
/// format overrides, then the merges, then the row groups.
#[derive(Debug, Clone)]
pub struct SheetOps {
    pub whitewash: bool,
    pub cells: Vec<CellWrite>,
    pub formats: Vec<FormatWrite>,
    pub merges: Vec<MergeWrite>,
    pub groups: Vec<RowGroup>,
}

impl View for SheetOps {
    type V = SheetOpsView;

    open spec fn view(&self) -> SheetOpsView {
        SheetOpsView {
            whitewash: self.whitewash,
            cells: Seq::new(self.cells@.len(), |i: int| self.cells@[i]@),
            formats: self.formats@,
            merges: Seq::new(self.merges@.len(), |i: int| self.merges@[i]@),
            groups: self.groups@,
        }
    }
}

/// An error from the spreadsheet writer; generation aborts on the first one.
pub enum GenerateError {
    Sheet(XlsxError),
}

#[verifier::external_type_specification]
#[verifier::external_body]
pub struct ExWorksheet(Worksheet);

#[verifier::external_type_specification]
#[verifier::external_body]
pub struct ExFormat(Format);

#[verifier::external_type_specification]
#[verifier::external_body]
pub struct ExXlsxError(XlsxError);

/// Relies on rust_xlsxwriter's Format::new: a fresh format with no borders
/// and no fill.
#[verifier::external_body]
fn format_new() -> Format {
    Format::new()
}

/// Relies on Format::set_border_top with a thin line.
#[verifier::external_body]
fn format_top_thin(f: Format) -> Format {
    f.set_border_top(FormatBorder::Thin)
}

/// Relies on Format::set_border_bottom with a thin line.
#[verifier::external_body]
fn format_bottom_thin(f: Format) -> Format {
    f.set_border_bottom(FormatBorder::Thin)
}

/// Relies on Format::set_border_left with a thin line.
#[verifier::external_body]
fn format_left_thin(f: Format) -> Format {
    f.set_border_left(FormatBorder::Thin)
}

/// Relies on Format::set_border_right with a thin line.
#[verifier::external_body]
fn format_right_thin(f: Format) -> Format {
    f.set_border_right(FormatBorder::Thin)
}

/// Relies on Format::set_background_color with white.
#[verifier::external_body]
fn format_white(f: Format) -> Format {
    f.set_background_color(Color::White)
}

/// Relies on Worksheet::write_string_with_format: stores the text with the
/// format at the given cell, or reports the writer's error.
#[verifier::external_body]
fn ws_write_string(
    ws: &mut Worksheet,
    row: u32,
    col: u16,
    text: &str,
    f: &Format,
) -> Result<(), XlsxError> {
    match ws.write_string_with_format(row, col, text, f) {
        Ok(_) => Ok(()),
        Err(e) => Err(e),
    }
}

/// Relies on Worksheet::set_cell_format: replaces the format of one cell.
#[verifier::external_body]
fn ws_set_cell_format(ws: &mut Worksheet, row: u32, col: u16, f: &Format) -> Result<
    (),
    XlsxError,
> {
    match ws.set_cell_format(row, col, f) {
        Ok(_) => Ok(()),
        Err(e) => Err(e),
    }
}

/// Relies on Worksheet::merge_range: merges the rectangle and writes the text
/// in its top-left cell.
#[verifier::external_body]
fn ws_merge_range(
    ws: &mut Worksheet,
    first_row: u32,
    first_col: u16,
    last_row: u32,
    last_col: u16,
    text: &str,
    f: &Format,
) -> Result<(), XlsxError> {
    match ws.merge_range(first_row, first_col, last_row, last_col, text, f) {
        Ok(_) => Ok(()),
        Err(e) => Err(e),
    }
}

/// Relies on Worksheet::group_rows: marks the inclusive row range as one
/// collapsible outline group.
#[verifier::external_body]
fn ws_group_rows(ws: &mut Worksheet, first_row: u32, last_row: u32) -> Result<(), XlsxError> {
    match ws.group_rows(first_row, last_row) {
        Ok(_) => Ok(()),
        Err(e) => Err(e),
    }
}

/// Relies on Worksheet::set_column_range_format: applies the format to every
/// column of the inclusive range.
#[verifier::external_body]
fn ws_format_columns(ws: &mut Worksheet, first_col: u16, last_col: u16, f: &Format) -> Result<
    (),
    XlsxError,
> {
    match ws.set_column_range_format(first_col, last_col, f) {
        Ok(_) => Ok(()),
        Err(e) => Err(e),
    }
}

/// Builds the writer's format for one cell style.
fn style_format(style: &CellStyle) -> Format {
    let mut f = format_new();
    if style.white {
        f = format_white(f);
    }
    if style.top {
        f = format_top_thin(f);
    }
    if style.bottom {
        f = format_bottom_thin(f);
    }
    if style.left {
        f = format_left_thin(f);
    }
    if style.right {
        f = format_right_thin(f);
    }
    f
}

/// The index of the last worksheet column, as `rust_xlsxwriter` counts them.
pub const LAST_COLUMN: u16 = 16383;

/// Plays a finished [`SheetOps`] onto a worksheet, in the fixed application
/// order; the first writer error aborts the run.  A sheet that asks for
/// nothing cannot fail.
pub fn apply_sheet_ops(ops: &SheetOps, ws: &mut Worksheet) -> (r: Result<(), GenerateError>)
    ensures
        (!ops.whitewash && ops.cells@.len() == 0 && ops.formats@.len() == 0 && ops.merges@.len()
            == 0 && ops.groups@.len() == 0) ==> r is Ok,
{
    if ops.whitewash {
        let f = format_white(format_new());
        match ws_format_columns(ws, 0, LAST_COLUMN, &f) {
            Ok(()) => {},
            Err(e) => {
                return Err(GenerateError::Sheet(e));
            },
        }
    }
    let mut i: usize = 0;
    while i < ops.cells.len()
        invariant
            i <= ops.cells@.len(),
        decreases ops.cells@.len() - i,
    {
        let c = &ops.cells[i];
        let f = style_format(&c.style);
        match ws_write_string(ws, c.row, c.col, c.text.as_str(), &f) {
            Ok(()) => {},
            Err(e) => {
                return Err(GenerateError::Sheet(e));
            },
        }
        i = i + 1;
    }
    let mut i: usize = 0;
    while i < ops.formats.len()
        invariant
            i <= ops.formats@.len(),
        decreases ops.formats@.len() - i,
    {
        let c = &ops.formats[i];
        let f = style_format(&c.style);
        match ws_set_cell_format(ws, c.row, c.col, &f) {
            Ok(()) => {},
            Err(e) => {
                return Err(GenerateError::Sheet(e));
            },
        }
        i = i + 1;
    }
    let mut i: usize = 0;
    while i < ops.merges.len()
        invariant
            i <= ops.merges@.len(),
        decreases ops.merges@.len() - i,
    {
        let m = &ops.merges[i];
        let f = style_format(&m.style);
        match ws_merge_range(ws, m.first_row, m.first_col, m.last_row, m.last_col, m.text.as_str(), &f) {
            Ok(()) => {},
            Err(e) => {
                return Err(GenerateError::Sheet(e));
            },
        }
        i = i + 1;
    }
    let mut i: usize = 0;
    while i < ops.groups.len()
        invariant
            i <= ops.groups@.len(),
        decreases ops.groups@.len() - i,
    {
        let g = &ops.groups[i];
        match ws_group_rows(ws, g.first_row, g.last_row) {
            Ok(()) => {},
            Err(e) => {
                return Err(GenerateError::Sheet(e));
            },
        }
        i = i + 1;
    }
    Ok(())
}

} // verus!
