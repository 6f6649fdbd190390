//! Per-sheet cell records: applies the configured layer set and the hidden
//! rows/columns to a sheet's cells and emits `CellRecord` values. The
//! display text of each value (numbers, dates, booleans, errors) is
//! rendered by the application, which reads the workbook.

use vstd::prelude::*;
use std::collections::HashSet;

use crate::cell::{a1, to_a1};
use crate::config::{cached_bit, display_bit, formula_bit, Layer, LayerSet};
use crate::reader::{CellRecord, CellView};

verus! {

/// One cell of a sheet as the reader sees it.
#[derive(Debug, Clone)]
pub struct SheetCell {
    /// 0-indexed row.
    pub row: u32,
    /// 0-indexed column.
    pub col: u32,
    /// The cell holds no value.
    pub is_empty: bool,
    /// The cell's value rendered as display text.
    pub value: String,
    /// The cell's formula text, when the sheet has a formula for it.
    pub formula: Option<String>,
}

/// A `SheetCell` as plain values.
pub struct SheetCellView {
    pub row: u32,
    pub col: u32,
    pub is_empty: bool,
    pub value: Seq<char>,
    pub formula: Option<Seq<char>>,
}

impl View for SheetCell {
    type V = SheetCellView;

    open spec fn view(&self) -> SheetCellView {
        SheetCellView {
            row: self.row,
            col: self.col,
            is_empty: self.is_empty,
            value: self.value@,
            formula: match self.formula {
                Some(f) => Some(f@),
                None => None,
            },
        }
    }
}

pub struct SheetParseInput<'a> {
    pub sheet_name: &'a str,
    pub cells: &'a [SheetCell],
    pub layers: LayerSet,
    pub hidden_rows: &'a HashSet<u32>,
    pub hidden_cols: &'a HashSet<u32>,
    pub include_hidden: bool,
}

/// A record value.
pub open spec fn record(sheet: Seq<char>, cell: Seq<char>, layer: Layer, text: Seq<char>) -> CellView {
    CellView { sheet, cell, layer, text }
}

/// The records of one cell: nothing for an empty or (when hidden content
/// is excluded) hidden cell; for a cell with a non-empty formula, its
/// formula text when the formula layer is on and its value when the cached
/// layer is on; otherwise its value when the display layer is on. Empty
/// values give no record.
pub open spec fn cell_records(
    sheet: Seq<char>,
    c: SheetCellView,
    layers: LayerSet,
    hidden_rows: Set<u32>,
    hidden_cols: Set<u32>,
    include_hidden: bool,
) -> Seq<CellView> {
    let address = a1(c.row as nat, c.col as nat);
    if c.is_empty {
        seq![]
    } else if !include_hidden && (hidden_rows.contains(c.row) || hidden_cols.contains(c.col)) {
        seq![]
    } else {
        match c.formula {
            Some(f) if f.len() > 0 => {
                let fr: Seq<CellView> = if layers.has(formula_bit()) {
                    seq![record(sheet, address, Layer::Formula, f)]
                } else {
                    seq![]
                };
                let cr: Seq<CellView> = if layers.has(cached_bit()) && c.value.len() > 0 {
                    seq![record(sheet, address, Layer::Cached, c.value)]
                } else {
                    seq![]
                };
                fr + cr
            },
            _ => if layers.has(display_bit()) && c.value.len() > 0 {
                seq![record(sheet, address, Layer::Display, c.value)]
            } else {
                seq![]
            },
        }
    }
}

/// The records of the first `n` cells, in cell order.
pub open spec fn sheet_records(
    sheet: Seq<char>,
    cells: Seq<SheetCellView>,
    layers: LayerSet,
    hidden_rows: Set<u32>,
    hidden_cols: Set<u32>,
    include_hidden: bool,
    n: int,
) -> Seq<CellView>
    decreases n,
{
    if n <= 0 {
        seq![]
    } else {
        sheet_records(sheet, cells, layers, hidden_rows, hidden_cols, include_hidden, n - 1) + cell_records(
            sheet,
            cells[n - 1],
            layers,
            hidden_rows,
            hidden_cols,
            include_hidden,
        )
    }
}

/// The views of a sequence of sheet cells.
pub open spec fn sheet_cell_views(v: Seq<SheetCell>) -> Seq<SheetCellView> {
    v.map_values(|c: SheetCell| c@)
}

fn push_record(out: &mut Vec<CellRecord>, sheet: &str, cell: String, layer: Layer, text: String)
    ensures
        crate::cell_views(final(out)@) == crate::cell_views(old(out)@).push(record(sheet@, cell@, layer, text@)),
{
    let ghost before = out@;
    out.push(CellRecord { sheet: sheet.to_owned(), cell, layer, text });
    assert(crate::cell_views(out@) =~= crate::cell_views(before).push(record(sheet@, cell@, layer, text@)));
}

/// The records of one sheet, in cell order.
pub fn parse_sheet(input: &SheetParseInput) -> (r: Vec<CellRecord>)
    requires
        forall|i: int| 0 <= i < input.cells@.len() ==> (#[trigger] input.cells@[i]).row < u32::MAX && input.cells@[i].col < u32::MAX,
    ensures
        crate::cell_views(r@) == sheet_records(
            input.sheet_name@,
            sheet_cell_views(input.cells@),
            input.layers,
            input.hidden_rows@,
            input.hidden_cols@,
            input.include_hidden,
            input.cells@.len() as int,
        ),
{
    broadcast use vstd::std_specs::hash::group_hash_axioms;

    let ghost cv = sheet_cell_views(input.cells@);
    let mut out: Vec<CellRecord> = Vec::new();
    let wants_formula = input.layers.contains(LayerSet::formula());
    let wants_cached = input.layers.contains(LayerSet::cached());
    let wants_display = input.layers.contains(LayerSet::display());
    let mut k: usize = 0;
    while k < input.cells.len()
        invariant
            k <= input.cells@.len(),
            cv == sheet_cell_views(input.cells@),
            forall|i: int| 0 <= i < input.cells@.len() ==> (#[trigger] input.cells@[i]).row < u32::MAX && input.cells@[i].col < u32::MAX,
            wants_formula == input.layers.has(formula_bit()),
            wants_cached == input.layers.has(cached_bit()),
            wants_display == input.layers.has(display_bit()),
            crate::cell_views(out@) == sheet_records(
                input.sheet_name@,
                cv,
                input.layers,
                input.hidden_rows@,
                input.hidden_cols@,
                input.include_hidden,
                k as int,
            ),
        decreases input.cells@.len() - k,
    {
        let c = &input.cells[k];
        assert(cv[k as int] == c@);
        assert(c.row < u32::MAX && c.col < u32::MAX);
        let ghost before = crate::cell_views(out@);
        let skip = c.is_empty || (!input.include_hidden && (input.hidden_rows.contains(&c.row)
            || input.hidden_cols.contains(&c.col)));
        if !skip {
            let address = to_a1(c.row, c.col);
            let formula_text: Option<&String> = match &c.formula {
                Some(f) => if f.unicode_len() > 0 {
                    Some(f)
                } else {
                    None
                },
                None => None,
            };
            match formula_text {
                Some(ftxt) => {
                    if wants_formula {
                        push_record(&mut out, input.sheet_name, address.clone(), Layer::Formula, ftxt.clone());
                    }
                    if wants_cached && c.value.unicode_len() > 0 {
                        push_record(&mut out, input.sheet_name, address, Layer::Cached, c.value.clone());
                    }
                },
                None => {
                    if wants_display && c.value.unicode_len() > 0 {
                        push_record(&mut out, input.sheet_name, address, Layer::Display, c.value.clone());
                    }
                },
            }
        }
        proof {
            assert(crate::cell_views(out@) =~= before + cell_records(
                input.sheet_name@,
                cv[k as int],
                input.layers,
                input.hidden_rows@,
                input.hidden_cols@,
                input.include_hidden,
            ));
        }
        k = k + 1;
    }
    out
}

} // verus!
