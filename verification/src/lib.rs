//! xgrep: Excel-aware grep. The verified core of the search: A1 cell
//! addresses, the layer model, match offsets, context expansion, the
//! shared-string pre-filter and the xlsx byte scanner.

pub mod cell;
pub mod cli;
pub mod config;
pub mod error;
pub mod matcher;
pub mod printer;
pub mod reader;
pub mod support;

use vstd::prelude::*;
use vstd::string::StringSliceAdditionalSpecFns;
use vstd::string::StrSliceExecFns;
use vstd::utf8::*;

use crate::cell::{a1_row, row_from_a1};
use crate::config::{layer_name, Layer};
use crate::error::{error_message, SearchError};
use crate::matcher::{char_span, Pattern};
use crate::reader::{CellRecord, CellView};
use crate::printer::match_count;
use crate::support::{lemma_boundary_in_prefix, lemma_boundary_in_suffix, str_eq};
use std::collections::HashSet;

verus! {

/// Context-line configuration (rg-aligned). When both `before` and `after`
/// are 0, `search_file` takes the single-pass path.
#[derive(Debug, Clone, Copy, PartialEq, Eq, Structural)]
pub struct ContextOptions {
    pub before: u32,
    pub after: u32,
}

impl Default for ContextOptions {
    fn default() -> (r: Self)
        ensures
            r.before == 0 && r.after == 0,
    {
        ContextOptions { before: 0, after: 0 }
    }
}

impl ContextOptions {
    pub fn is_zero(&self) -> (r: bool)
        ensures
            r == (self.before == 0 && self.after == 0),
    {
        self.before == 0 && self.after == 0
    }
}

/// The text a submatch covers.
#[derive(Debug, Clone)]
pub struct SubmatchText {
    pub text: String,
}

/// One match inside a cell's text, as 0-indexed Unicode character offsets.
#[derive(Debug, Clone)]
pub struct Submatch {
    /// rg-compatible: `"match": {"text": "..."}`.
    pub matched: SubmatchText,
    /// 0-indexed Unicode character offset (inclusive).
    pub start: usize,
    /// 0-indexed Unicode character offset (exclusive).
    pub end: usize,
}

/// A `Submatch` as plain values.
pub struct SubmatchView {
    pub text: Seq<char>,
    pub start: int,
    pub end: int,
}

impl View for Submatch {
    type V = SubmatchView;

    open spec fn view(&self) -> SubmatchView {
        SubmatchView { text: self.matched.text@, start: self.start as int, end: self.end as int }
    }
}

#[derive(Debug, Clone, Copy)]
pub struct FileStats {
    pub matches: u64,
    pub sheets_scanned: u32,
}

impl Default for FileStats {
    fn default() -> (r: Self)
        ensures
            r.matches == 0 && r.sheets_scanned == 0,
    {
        FileStats { matches: 0, sheets_scanned: 0 }
    }
}

#[derive(Debug, Clone)]
pub enum MatchEvent {
    /// `{"type":"begin","data":{"path":...}}`
    FileBegin { path: String },
    Match {
        path: String,
        sheet: String,
        /// A1 notation
        cell: String,
        /// `Layer::as_str()`
        layer: String,
        text: String,
        submatches: Vec<Submatch>,
    },
    /// A non-matching cell surfaced because it falls within the row-context
    /// window (`-A`/`-B`/`-C`) of an adjacent match. Identical shape to
    /// `Match` minus the `submatches` field.
    Context { path: String, sheet: String, cell: String, layer: String, text: String },
    /// Inserted between disjoint context spans within the same file (rg's
    /// `--` separator). Carries no payload.
    Separator,
    FileEnd { path: String, stats: FileStats },
    Error { path: String, message: String },
}

/// A `MatchEvent` as plain values.
pub enum EventView {
    FileBegin { path: Seq<char> },
    Match {
        path: Seq<char>,
        sheet: Seq<char>,
        cell: Seq<char>,
        layer: Seq<char>,
        text: Seq<char>,
        submatches: Seq<SubmatchView>,
    },
    Context { path: Seq<char>, sheet: Seq<char>, cell: Seq<char>, layer: Seq<char>, text: Seq<char> },
    Separator,
    FileEnd { path: Seq<char>, matches: u64, sheets_scanned: u32 },
    Error { path: Seq<char>, message: Seq<char> },
}

/// The views of a vector of submatches.
pub open spec fn submatch_views(v: Seq<Submatch>) -> Seq<SubmatchView> {
    v.map_values(|s: Submatch| s@)
}

impl View for MatchEvent {
    type V = EventView;

    open spec fn view(&self) -> EventView {
        match self {
            MatchEvent::FileBegin { path } => EventView::FileBegin { path: path@ },
            MatchEvent::Match { path, sheet, cell, layer, text, submatches } => EventView::Match {
                path: path@,
                sheet: sheet@,
                cell: cell@,
                layer: layer@,
                text: text@,
                submatches: submatch_views(submatches@),
            },
            MatchEvent::Context { path, sheet, cell, layer, text } => EventView::Context {
                path: path@,
                sheet: sheet@,
                cell: cell@,
                layer: layer@,
                text: text@,
            },
            MatchEvent::Separator => EventView::Separator,
            MatchEvent::FileEnd { path, stats } => EventView::FileEnd {
                path: path@,
                matches: stats.matches,
                sheets_scanned: stats.sheets_scanned,
            },
            MatchEvent::Error { path, message } => EventView::Error {
                path: path@,
                message: message@,
            },
        }
    }
}

/// The views of a vector of events.
pub open spec fn event_views(v: Seq<MatchEvent>) -> Seq<EventView> {
    v.map_values(|e: MatchEvent| e@)
}

/// A FileBlock is the unit of atomic output: FileBegin .. Match* .. FileEnd
/// (or an Error event in place of the body). Workers emit one per file.
#[derive(Debug, Clone)]
pub struct FileBlock {
    pub events: Vec<MatchEvent>,
}

impl View for FileBlock {
    type V = Seq<EventView>;

    open spec fn view(&self) -> Seq<EventView> {
        event_views(self.events@)
    }
}

/// The submatch for the byte range `[s, e)` of `h`: its text and its
/// 0-indexed character offsets.
pub open spec fn char_range(h: Seq<char>, s: int, e: int) -> SubmatchView {
    let bytes = encode_utf8(h);
    let start = decode_utf8(bytes.subrange(0, s)).len() as int;
    let text = decode_utf8(bytes.subrange(s, e));
    SubmatchView { text, start, end: start + text.len() }
}

proof fn lemma_decode_len_le(b: Seq<u8>)
    requires
        valid_utf8(b),
    ensures
        decode_utf8(b).len() <= b.len(),
    decreases b.len(),
{
    if b.len() > 0 {
        let rest = pop_first_scalar(b);
        assert(rest.len() < b.len());
        lemma_decode_len_le(rest);
    }
}

/// First row of the context window around match row `r`: `before` rows
/// up, never above row 1.
pub open spec fn window_lo(r: u32, before: u32) -> int {
    if r - before >= 1 {
        r - before
    } else {
        1
    }
}

/// Last row of the context window around match row `r`: `after` rows
/// down, saturating at `u32::MAX`.
pub open spec fn window_hi(r: u32, after: u32) -> int {
    if r + after <= u32::MAX {
        r + after
    } else {
        u32::MAX as int
    }
}

/// Row `row` of `sheet` lies in the context window of the match `m`.
pub open spec fn in_window(m: (Seq<char>, u32), sheet: Seq<char>, row: u32, ctx: ContextOptions) -> bool {
    m.0 == sheet && window_lo(m.1, ctx.before) <= row <= window_hi(m.1, ctx.after)
}

/// Row `row` of `sheet` lies in the context window of some match.
pub open spec fn in_context(
    mr: Seq<(Seq<char>, u32)>,
    sheet: Seq<char>,
    row: u32,
    ctx: ContextOptions,
) -> bool {
    exists|k: int| 0 <= k < mr.len() && #[trigger] in_window(mr[k], sheet, row, ctx)
}

/// Row `row` of `sheet` is itself a match row.
pub open spec fn is_match_row(mr: Seq<(Seq<char>, u32)>, sheet: Seq<char>, row: u32) -> bool {
    exists|k: int| 0 <= k < mr.len() && #[trigger] mr[k] == (sheet, row)
}

/// The match positions as plain values.
pub open spec fn row_keys(v: Seq<(String, u32)>) -> Seq<(Seq<char>, u32)> {
    v.map_values(|p: (String, u32)| (p.0@, p.1))
}

/// The views of a sequence of cells.
pub open spec fn cell_views(v: Seq<CellRecord>) -> Seq<CellView> {
    v.map_values(|c: CellRecord| c@)
}

/// A cell is shown when its address has a row and that row lies in the
/// context window of a match on the same sheet.
pub open spec fn shown(c: CellView, mr: Seq<(Seq<char>, u32)>, ctx: ContextOptions) -> bool {
    match a1_row(c.cell) {
        Some(r) => in_context(mr, c.sheet, r, ctx),
        None => false,
    }
}

/// The (sheet, row) of the last shown cell among the first `n`.
pub open spec fn last_shown(
    cells: Seq<CellView>,
    mr: Seq<(Seq<char>, u32)>,
    ctx: ContextOptions,
    n: int,
) -> Option<(Seq<char>, u32)>
    decreases n,
{
    if n <= 0 {
        None
    } else if shown(cells[n - 1], mr, ctx) {
        Some((cells[n - 1].sheet, a1_row(cells[n - 1].cell).unwrap()))
    } else {
        last_shown(cells, mr, ctx, n - 1)
    }
}

/// A separator comes before a shown cell at (`sheet`, `row`) when the
/// previous shown cell was on another sheet or more than one row above.
pub open spec fn needs_separator(prev: Option<(Seq<char>, u32)>, sheet: Seq<char>, row: u32) -> bool {
    match prev {
        Some(p) => p.0 != sheet || row > p.1 + 1,
        None => false,
    }
}

/// The event `emit_with_context` gives a shown cell, with an empty path and
/// no submatches: Match when the cell lies on a match row, else Context.
/// (`search_file` then reports a Match whose own text is no hit as Context.)
pub open spec fn cell_event(c: CellView, mr: Seq<(Seq<char>, u32)>, row: u32) -> EventView {
    if is_match_row(mr, c.sheet, row) {
        EventView::Match {
            path: seq![],
            sheet: c.sheet,
            cell: c.cell,
            layer: layer_name(c.layer),
            text: c.text,
            submatches: seq![],
        }
    } else {
        EventView::Context {
            path: seq![],
            sheet: c.sheet,
            cell: c.cell,
            layer: layer_name(c.layer),
            text: c.text,
        }
    }
}

/// The events cell `i` contributes.
pub open spec fn context_step(
    cells: Seq<CellView>,
    mr: Seq<(Seq<char>, u32)>,
    ctx: ContextOptions,
    i: int,
) -> Seq<EventView> {
    let c = cells[i];
    if shown(c, mr, ctx) {
        let r = a1_row(c.cell).unwrap();
        let sep: Seq<EventView> = if needs_separator(last_shown(cells, mr, ctx, i), c.sheet, r) {
            seq![EventView::Separator]
        } else {
            seq![]
        };
        sep.push(cell_event(c, mr, r))
    } else {
        seq![]
    }
}

/// The events of the first `n` cells in context mode.
pub open spec fn context_events(
    cells: Seq<CellView>,
    mr: Seq<(Seq<char>, u32)>,
    ctx: ContextOptions,
    n: int,
) -> Seq<EventView>
    decreases n,
{
    if n <= 0 {
        seq![]
    } else {
        context_events(cells, mr, ctx, n - 1) + context_step(cells, mr, ctx, n - 1)
    }
}

/// The rows of one sheet that are in a context window, and its match rows.
struct SheetRows {
    name: String,
    window: HashSet<u32>,
    hits: HashSet<u32>,
}

/// `t` holds, per sheet of the first `n` match positions, exactly the
/// window rows and the match rows of that sheet; no sheet twice.
spec fn table_ok(t: Seq<SheetRows>, mr: Seq<(Seq<char>, u32)>, n: int, ctx: ContextOptions) -> bool {
    &&& forall|j1: int, j2: int|
        0 <= j1 < t.len() && 0 <= j2 < t.len() && j1 != j2 ==> #[trigger] t[j1].name@
            != #[trigger] t[j2].name@
    &&& forall|j: int, row: u32|
        0 <= j < t.len() ==> (#[trigger] t[j].window@.contains(row) <==> exists|k: int|
            0 <= k < n && #[trigger] in_window(mr[k], t[j].name@, row, ctx))
    &&& forall|j: int, row: u32|
        0 <= j < t.len() ==> (#[trigger] t[j].hits@.contains(row) <==> exists|k: int|
            0 <= k < n && #[trigger] mr[k] == (t[j].name@, row))
    &&& forall|k: int|
        0 <= k < n ==> exists|j: int| 0 <= j < t.len() && #[trigger] t[j].name@ == (#[trigger] mr[k]).0
}

/// Index of the entry for `sheet`, if there is one.
fn find_sheet(t: &Vec<SheetRows>, sheet: &str) -> (r: Option<usize>)
    ensures
        match r {
            Some(j) => j < t@.len() && t@[j as int].name@ == sheet@,
            None => forall|j: int| 0 <= j < t@.len() ==> t@[j].name@ != sheet@,
        },
{
    let mut j: usize = 0;
    while j < t.len()
        invariant
            j <= t@.len(),
            forall|i: int| 0 <= i < j ==> t@[i].name@ != sheet@,
        decreases t@.len() - j,
    {
        if str_eq(t[j].name.as_str(), sheet) {
            return Some(j);
        }
        j = j + 1;
    }
    None
}

/// Add the rows `lo..=hi` to `w`.
fn add_rows(w: &mut HashSet<u32>, lo: u32, hi: u32)
    ensures
        forall|row: u32| #[trigger] final(w)@.contains(row) <==> (old(w)@.contains(row) || lo <= row <= hi),
{
    broadcast use vstd::std_specs::hash::group_hash_axioms;

    if lo > hi {
        return;
    }
    let mut rr = lo;
    loop
        invariant
            lo <= rr <= hi,
            forall|row: u32| #[trigger] w@.contains(row) <==> (old(w)@.contains(row) || lo <= row < rr),
        decreases hi - rr,
    {
        w.insert(rr);
        if rr == hi {
            return;
        }
        rr = rr + 1;
    }
}

/// The per-sheet window rows and match rows of `match_rows`.
fn build_rows(match_rows: &[(String, u32)], ctx: ContextOptions) -> (t: Vec<SheetRows>)
    ensures
        table_ok(t@, row_keys(match_rows@), match_rows@.len() as int, ctx),
{
    broadcast use vstd::std_specs::hash::group_hash_axioms;

    let ghost mr = row_keys(match_rows@);
    let mut t: Vec<SheetRows> = Vec::new();
    let mut i: usize = 0;
    while i < match_rows.len()
        invariant
            i <= match_rows@.len(),
            mr == row_keys(match_rows@),
            table_ok(t@, mr, i as int, ctx),
        decreases match_rows@.len() - i,
    {
        let sheet = &match_rows[i].0;
        let r = match_rows[i].1;
        assert(mr[i as int] == (sheet@, r));
        let j = match find_sheet(&t, sheet.as_str()) {
            Some(j) => j,
            None => {
                let ghost t_prev = t@;
                t.push(SheetRows { name: sheet.clone(), window: HashSet::new(), hits: HashSet::new() });
                proof {
                    let n = t@.len() - 1;
                    assert forall|row: u32| !#[trigger] t@[n].window@.contains(row) implies !exists|
                        k: int,
                    | 0 <= k < i && #[trigger] in_window(mr[k], t@[n].name@, row, ctx) by {
                        if exists|k: int| 0 <= k < i && #[trigger] in_window(mr[k], t@[n].name@, row, ctx) {
                            let k = choose|k: int| 0 <= k < i && #[trigger] in_window(mr[k], t@[n].name@, row, ctx);
                            let jj = choose|jj: int| 0 <= jj < n && #[trigger] t@[jj].name@ == (#[trigger] mr[k]).0;
                            assert(t@[jj].name@ != sheet@);
                        }
                    }
                    assert forall|row: u32| !#[trigger] t@[n].hits@.contains(row) implies !exists|
                        k: int,
                    | 0 <= k < i && #[trigger] mr[k] == (t@[n].name@, row) by {
                        if exists|k: int| 0 <= k < i && #[trigger] mr[k] == (t@[n].name@, row) {
                            let k = choose|k: int| 0 <= k < i && #[trigger] mr[k] == (t@[n].name@, row);
                            let jj = choose|jj: int| 0 <= jj < n && #[trigger] t@[jj].name@ == (#[trigger] mr[k]).0;
                            assert(t@[jj].name@ != sheet@);
                        }
                    }
                    assert forall|k: int| 0 <= k < i implies exists|jj: int|
                        0 <= jj < t@.len() && #[trigger] t@[jj].name@ == (#[trigger] mr[k]).0 by {
                        let jj = choose|jj: int|
                            0 <= jj < t_prev.len() && #[trigger] t_prev[jj].name@ == (#[trigger] mr[k]).0;
                        assert(t@[jj] == t_prev[jj]);
                    }
                }
                t.len() - 1
            },
        };
        let ghost t0 = t@;
        assert(table_ok(t0, mr, i as int, ctx));
        assert(t0[j as int].name@ == sheet@);
        let lo: u32 = if r > ctx.before {
            r - ctx.before
        } else {
            1
        };
        let hi: u32 = if r <= u32::MAX - ctx.after {
            r + ctx.after
        } else {
            u32::MAX
        };
        add_rows(&mut t[j].window, lo, hi);
        t[j].hits.insert(r);
        proof {
            let ii = i as int;
            assert(t@.len() == t0.len());
            assert(t@[j as int].name == t0[j as int].name);
            assert forall|jj: int| 0 <= jj < t@.len() && jj != j implies #[trigger] t@[jj] == t0[jj] by {}
            assert(lo == window_lo(r, ctx.before) && hi == window_hi(r, ctx.after));
            assert forall|jj: int, row: u32| 0 <= jj < t@.len() implies (#[trigger] t@[jj].window@.contains(
                row,
            ) <==> exists|k: int| 0 <= k < ii + 1 && #[trigger] in_window(mr[k], t@[jj].name@, row, ctx)) by {
                if t@[jj].window@.contains(row) {
                    if jj == j && lo <= row <= hi {
                        assert(in_window(mr[ii], t@[jj].name@, row, ctx));
                    } else {
                        assert(t0[jj].window@.contains(row));
                        let k = choose|k: int| 0 <= k < ii && #[trigger] in_window(mr[k], t0[jj].name@, row, ctx);
                        assert(in_window(mr[k], t@[jj].name@, row, ctx));
                    }
                }
                if exists|k: int| 0 <= k < ii + 1 && #[trigger] in_window(mr[k], t@[jj].name@, row, ctx) {
                    let k = choose|k: int| 0 <= k < ii + 1 && #[trigger] in_window(mr[k], t@[jj].name@, row, ctx);
                    if k < ii {
                        assert(in_window(mr[k], t0[jj].name@, row, ctx));
                        assert(t0[jj].window@.contains(row));
                    } else if jj != j {
                        assert(t0[jj].name@ != t0[j as int].name@);
                    }
                }
            }
            assert forall|jj: int, row: u32| 0 <= jj < t@.len() implies (#[trigger] t@[jj].hits@.contains(
                row,
            ) <==> exists|k: int| 0 <= k < ii + 1 && #[trigger] mr[k] == (t@[jj].name@, row)) by {
                if t@[jj].hits@.contains(row) {
                    if jj == j && row == r {
                        assert(mr[ii] == (t@[jj].name@, row));
                    } else {
                        assert(t0[jj].hits@.contains(row));
                        let k = choose|k: int| 0 <= k < ii && #[trigger] mr[k] == (t0[jj].name@, row);
                        assert(mr[k] == (t@[jj].name@, row));
                    }
                }
                if exists|k: int| 0 <= k < ii + 1 && #[trigger] mr[k] == (t@[jj].name@, row) {
                    let k = choose|k: int| 0 <= k < ii + 1 && #[trigger] mr[k] == (t@[jj].name@, row);
                    if k < ii {
                        assert(mr[k] == (t0[jj].name@, row));
                        assert(t0[jj].hits@.contains(row));
                    } else if jj != j {
                        assert(t0[jj].name@ != t0[j as int].name@);
                    }
                }
            }
            assert forall|k: int| 0 <= k < ii + 1 implies exists|jj: int|
                0 <= jj < t@.len() && #[trigger] t@[jj].name@ == (#[trigger] mr[k]).0 by {
                if k < ii {
                    let jj = choose|jj: int| 0 <= jj < t0.len() && #[trigger] t0[jj].name@ == (#[trigger] mr[k]).0;
                    assert(t@[jj].name@ == t0[jj].name@);
                } else {
                    assert(t@[j as int].name@ == mr[k].0);
                }
            }
            assert forall|j1: int, j2: int|
                0 <= j1 < t@.len() && 0 <= j2 < t@.len() && j1 != j2 implies #[trigger] t@[j1].name@
                != #[trigger] t@[j2].name@ by {
                assert(t@[j1].name@ == t0[j1].name@);
                assert(t@[j2].name@ == t0[j2].name@);
            }
        }
        i = i + 1;
    }
    t
}

/// Whether row `r` of `sheet` is in a context window, and whether it is a
/// match row, looked up in the table.
fn lookup_row(
    t: &Vec<SheetRows>,
    sheet: &str,
    r: u32,
    Ghost(mr): Ghost<Seq<(Seq<char>, u32)>>,
    Ghost(n): Ghost<int>,
    ctx: ContextOptions,
) -> (res: (bool, bool))
    requires
        n == mr.len(),
        table_ok(t@, mr, n, ctx),
    ensures
        res.0 == in_context(mr, sheet@, r, ctx),
        res.1 == is_match_row(mr, sheet@, r),
{
    broadcast use vstd::std_specs::hash::group_hash_axioms;

    match find_sheet(t, sheet) {
        Some(j) => {
            let w = t[j].window.contains(&r);
            let h = t[j].hits.contains(&r);
            proof {
                assert(t@[j as int].window@.contains(r) == w);
                assert(t@[j as int].hits@.contains(r) == h);
            }
            (w, h)
        },
        None => {
            proof {
                assert forall|k: int| 0 <= k < mr.len() implies !#[trigger] in_window(mr[k], sheet@, r, ctx) by {
                    let jj = choose|jj: int| 0 <= jj < t@.len() && #[trigger] t@[jj].name@ == (#[trigger] mr[k]).0;
                }
                assert forall|k: int| 0 <= k < mr.len() implies #[trigger] mr[k] != (sheet@, r) by {
                    let jj = choose|jj: int| 0 <= jj < t@.len() && #[trigger] t@[jj].name@ == (#[trigger] mr[k]).0;
                }
            }
            (false, false)
        },
    }
}

proof fn lemma_event_views_push(v: Seq<MatchEvent>, e: MatchEvent)
    ensures
        event_views(v.push(e)) == event_views(v).push(e@),
{
    assert(event_views(v.push(e)) =~= event_views(v).push(e@));
}

/// Three-pass context emit: given the full `cells` vector (in reader order)
/// and a flat list of (sheet, row) match positions, returns Match / Context /
/// Separator events with `--` inserted between disjoint spans within a sheet
/// AND at sheet boundaries.
///
/// A shown cell on a match row comes out as a Match, any other shown cell
/// as a Context. Returned events use an empty path and no submatches;
/// `search_file` fills in both, and turns a Match whose own text is no hit
/// into a Context.
pub fn emit_with_context(cells: &[CellRecord], match_rows: &[(String, u32)], ctx: ContextOptions) -> (r: Vec<
    MatchEvent,
>)
    ensures
        event_views(r@) == context_events(
            cell_views(cells@),
            row_keys(match_rows@),
            ctx,
            cells@.len() as int,
        ),
{
    let t = build_rows(match_rows, ctx);
    let ghost cv = cell_views(cells@);
    let ghost mr = row_keys(match_rows@);
    let mut out: Vec<MatchEvent> = Vec::new();
    let mut prev: Option<(usize, u32)> = None;
    let mut i: usize = 0;
    while i < cells.len()
        invariant
            i <= cells@.len(),
            cv == cell_views(cells@),
            mr == row_keys(match_rows@),
            table_ok(t@, mr, mr.len() as int, ctx),
            event_views(out@) == context_events(cv, mr, ctx, i as int),
            match prev {
                None => last_shown(cv, mr, ctx, i as int) is None,
                Some(p) => p.0 < i && last_shown(cv, mr, ctx, i as int) == Some((cv[p.0 as int].sheet, p.1)),
            },
        decreases cells@.len() - i,
    {
        let c = &cells[i];
        assert(cv[i as int] == c@);
        let ghost before = out@;
        match row_from_a1(c.cell.as_str()) {
            None => {},
            Some(r) => {
                let (in_ctx, is_match) = lookup_row(&t, c.sheet.as_str(), r, Ghost(mr), Ghost(mr.len() as int), ctx);
                if in_ctx {
                    let sep = match prev {
                        Some((pi, pr)) => {
                            assert(cv[pi as int] == cells@[pi as int]@);
                            !str_eq(cells[pi].sheet.as_str(), c.sheet.as_str()) || (r > pr && r - pr > 1)
                        },
                        None => false,
                    };
                    assert(sep == needs_separator(last_shown(cv, mr, ctx, i as int), c.sheet@, r));
                    if sep {
                        proof { lemma_event_views_push(out@, MatchEvent::Separator); }
                        out.push(MatchEvent::Separator);
                    }
                    prev = Some((i, r));
                    let layer = c.layer.as_str().to_owned();
                    let ev = if is_match {
                        MatchEvent::Match {
                            path: String::new(),
                            sheet: c.sheet.clone(),
                            cell: c.cell.clone(),
                            layer,
                            text: c.text.clone(),
                            submatches: Vec::new(),
                        }
                    } else {
                        MatchEvent::Context {
                            path: String::new(),
                            sheet: c.sheet.clone(),
                            cell: c.cell.clone(),
                            layer,
                            text: c.text.clone(),
                        }
                    };
                    proof {
                        assert(ev@ == cell_event(cv[i as int], mr, r)) by {
                            if is_match {
                                assert(submatch_views(Seq::<Submatch>::empty()) =~= Seq::<SubmatchView>::empty());
                            }
                        }
                        lemma_event_views_push(out@, ev);
                    }
                    out.push(ev);
                }
            },
        }
        proof {
            assert(context_step(cv, mr, ctx, i as int) =~= event_views(out@).subrange(before.len() as int, out@.len() as int)) by {}
            assert(event_views(out@) =~= event_views(before) + context_step(cv, mr, ctx, i as int));
        }
        i = i + 1;
    }
    out
}

/// The sheet and row of a Match or Context event.
pub open spec fn event_place(e: EventView) -> Option<(Seq<char>, u32)> {
    match e {
        EventView::Match { sheet, cell, .. } => match a1_row(cell) {
            Some(r) => Some((sheet, r)),
            None => None,
        },
        EventView::Context { sheet, cell, .. } => match a1_row(cell) {
            Some(r) => Some((sheet, r)),
            None => None,
        },
        _ => None,
    }
}

/// Every event is a Separator or placed; the last event is placed at
/// `last`; no Separator opens the sequence or precedes another one; two
/// neighbouring placed events need no separator between them.
spec fn shape_ok(ev: Seq<EventView>, last: Option<(Seq<char>, u32)>) -> bool {
    &&& forall|k: int| 0 <= k < ev.len() ==> (#[trigger] ev[k] is Separator || event_place(ev[k]) is Some)
    &&& ev.len() == 0 <==> last is None
    &&& ev.len() > 0 ==> event_place(ev.last()) == last
    &&& ev.len() > 0 ==> !(ev[0] is Separator)
    &&& forall|k: int| 0 <= k < ev.len() - 1 && #[trigger] ev[k] is Separator ==> event_place(ev[k + 1]) is Some
    &&& forall|k: int|
        0 <= k < ev.len() - 1 && (#[trigger] event_place(ev[k])) is Some && event_place(ev[k + 1]) is Some
            ==> !needs_separator(event_place(ev[k]), event_place(ev[k + 1]).unwrap().0, event_place(ev[k + 1]).unwrap().1)
}

proof fn lemma_shape_push(ev: Seq<EventView>, last: Option<(Seq<char>, u32)>, e: EventView)
    requires
        shape_ok(ev, last),
        event_place(e) is Some,
        !needs_separator(last, event_place(e).unwrap().0, event_place(e).unwrap().1),
    ensures
        shape_ok(ev.push(e), event_place(e)),
{
    let ev2 = ev.push(e);
    assert forall|k: int| 0 <= k < ev2.len() - 1 && #[trigger] ev2[k] is Separator implies event_place(ev2[k + 1]) is Some by {
        if k < ev.len() - 1 {
            assert(ev2[k] == ev[k] && ev2[k + 1] == ev[k + 1]);
        }
    }
    assert forall|k: int|
        0 <= k < ev2.len() - 1 && (#[trigger] event_place(ev2[k])) is Some && event_place(ev2[k + 1]) is Some
            implies !needs_separator(event_place(ev2[k]), event_place(ev2[k + 1]).unwrap().0, event_place(ev2[k + 1]).unwrap().1) by {
        if k < ev.len() - 1 {
            assert(ev2[k] == ev[k] && ev2[k + 1] == ev[k + 1]);
        } else {
            assert(ev2[k] == ev.last());
        }
    }
    assert forall|k: int| 0 <= k < ev2.len() implies (#[trigger] ev2[k] is Separator || event_place(ev2[k]) is Some) by {
        if k < ev.len() {
            assert(ev2[k] == ev[k]);
        }
    }
    if ev.len() > 0 {
        assert(ev2[0] == ev[0]);
    }
}

proof fn lemma_shape_push_separated(ev: Seq<EventView>, last: Option<(Seq<char>, u32)>, e: EventView)
    requires
        shape_ok(ev, last),
        last is Some,
        event_place(e) is Some,
    ensures
        shape_ok(ev.push(EventView::Separator).push(e), event_place(e)),
{
    let ev2 = ev.push(EventView::Separator).push(e);
    let n = ev.len() as int;
    assert(ev2[n] is Separator);
    assert(ev2[n + 1] == e);
    assert forall|k: int| 0 <= k < ev2.len() - 1 && #[trigger] ev2[k] is Separator implies event_place(ev2[k + 1]) is Some by {
        if k < n - 1 {
            assert(ev2[k] == ev[k] && ev2[k + 1] == ev[k + 1]);
        } else if k == n - 1 {
            assert(ev2[k] == ev[k]);
        }
    }
    assert forall|k: int|
        0 <= k < ev2.len() - 1 && (#[trigger] event_place(ev2[k])) is Some && event_place(ev2[k + 1]) is Some
            implies !needs_separator(event_place(ev2[k]), event_place(ev2[k + 1]).unwrap().0, event_place(ev2[k + 1]).unwrap().1) by {
        if k < n - 1 {
            assert(ev2[k] == ev[k] && ev2[k + 1] == ev[k + 1]);
        }
    }
    assert forall|k: int| 0 <= k < ev2.len() implies (#[trigger] ev2[k] is Separator || event_place(ev2[k]) is Some) by {
        if k < n {
            assert(ev2[k] == ev[k]);
        }
    }
    assert(ev2[0] == ev[0]);
}

proof fn lemma_context_shape(cells: Seq<CellView>, mr: Seq<(Seq<char>, u32)>, ctx: ContextOptions, n: int)
    requires
        0 <= n <= cells.len(),
    ensures
        shape_ok(context_events(cells, mr, ctx, n), last_shown(cells, mr, ctx, n)),
    decreases n,
{
    if n > 0 {
        lemma_context_shape(cells, mr, ctx, n - 1);
        let prev = context_events(cells, mr, ctx, n - 1);
        let last = last_shown(cells, mr, ctx, n - 1);
        let ev = context_events(cells, mr, ctx, n);
        let c = cells[n - 1];
        if shown(c, mr, ctx) {
            let r = a1_row(c.cell).unwrap();
            let e = cell_event(c, mr, r);
            assert(event_place(e) == Some((c.sheet, r)));
            if needs_separator(last, c.sheet, r) {
                assert(ev =~= prev.push(EventView::Separator).push(e));
                lemma_shape_push_separated(prev, last, e);
            } else {
                assert(ev =~= prev.push(e));
                lemma_shape_push(prev, last, e);
            }
        } else {
            assert(ev =~= prev);
        }
    }
}

/// Context never runs across sheets or across a gap: of two neighbouring
/// Match/Context events, the second is on the same sheet as the first and
/// at most one row below it; a Separator stands everywhere else, and a
/// Separator neither opens the output nor follows another Separator.
pub proof fn lemma_context_spans_separated(cells: Seq<CellView>, mr: Seq<(Seq<char>, u32)>, ctx: ContextOptions)
    ensures
        ({
            let ev = context_events(cells, mr, ctx, cells.len() as int);
            &&& forall|k: int| 0 <= k < ev.len() ==> (#[trigger] ev[k] is Separator || event_place(ev[k]) is Some)
            &&& ev.len() > 0 ==> !(ev[0] is Separator) && !(ev.last() is Separator)
            &&& forall|k: int| 0 <= k < ev.len() - 1 && #[trigger] ev[k] is Separator ==> !(ev[k + 1] is Separator)
            &&& forall|k: int|
                0 <= k < ev.len() - 1 && (#[trigger] event_place(ev[k])) is Some && event_place(ev[k + 1]) is Some
                    ==> event_place(ev[k + 1]).unwrap().0 == event_place(ev[k]).unwrap().0
                    && event_place(ev[k + 1]).unwrap().1 <= event_place(ev[k]).unwrap().1 + 1
        }),
{
    lemma_context_shape(cells, mr, ctx, cells.len() as int);
    let ev = context_events(cells, mr, ctx, cells.len() as int);
    if ev.len() > 0 {
        assert(event_place(ev.last()) is Some);
    }
    assert forall|k: int| 0 <= k < ev.len() - 1 && #[trigger] ev[k] is Separator implies !(ev[k + 1] is Separator) by {
        assert(event_place(ev[k + 1]) is Some);
    }
}

/// In the events of `emit_with_context`, a cell on a match row is always
/// shown, as a Match event: the context window of a match contains the
/// match row itself.
pub proof fn lemma_match_row_shown(cells: Seq<CellView>, mr: Seq<(Seq<char>, u32)>, ctx: ContextOptions, i: int)
    requires
        0 <= i < cells.len(),
        a1_row(cells[i].cell) is Some,
        is_match_row(mr, cells[i].sheet, a1_row(cells[i].cell).unwrap()),
    ensures
        shown(cells[i], mr, ctx),
        context_step(cells, mr, ctx, i).last() is Match,
        context_step(cells, mr, ctx, i).last() == cell_event(cells[i], mr, a1_row(cells[i].cell).unwrap()),
{
    let c = cells[i];
    let r = a1_row(c.cell).unwrap();
    let k = choose|k: int| 0 <= k < mr.len() && #[trigger] mr[k] == (c.sheet, r);
    assert(r >= 1);
    assert(in_window(mr[k], c.sheet, r, ctx));
}

proof fn lemma_context_places(cells: Seq<CellView>, mr: Seq<(Seq<char>, u32)>, ctx: ContextOptions, n: int)
    requires
        0 <= n <= cells.len(),
    ensures
        forall|k: int|
            0 <= k < context_events(cells, mr, ctx, n).len() && (#[trigger] event_place(
                context_events(cells, mr, ctx, n)[k],
            )) is Some ==> {
                let pl = event_place(context_events(cells, mr, ctx, n)[k]).unwrap();
                exists|j: int|
                    0 <= j < mr.len() && (#[trigger] mr[j]).0 == pl.0 && mr[j].1 - ctx.before <= pl.1 <= mr[j].1
                        + ctx.after
            },
    decreases n,
{
    if n > 0 {
        lemma_context_places(cells, mr, ctx, n - 1);
        let prev = context_events(cells, mr, ctx, n - 1);
        let step = context_step(cells, mr, ctx, n - 1);
        let ev = context_events(cells, mr, ctx, n);
        assert(ev == prev + step);
        let c = cells[n - 1];
        assert forall|k: int| 0 <= k < ev.len() && (#[trigger] event_place(ev[k])) is Some implies {
            let pl = event_place(ev[k]).unwrap();
            exists|j: int|
                0 <= j < mr.len() && (#[trigger] mr[j]).0 == pl.0 && mr[j].1 - ctx.before <= pl.1 <= mr[j].1
                    + ctx.after
        } by {
            if k < prev.len() {
                assert(ev[k] == prev[k]);
            } else {
                assert(ev[k] == step[k - prev.len()]);
                assert(shown(c, mr, ctx));
                let r = a1_row(c.cell).unwrap();
                let e = cell_event(c, mr, r);
                assert(step.last() == e);
                assert(ev[k] == e);
                assert(event_place(e) == Some((c.sheet, r)));
                let j = choose|j: int| 0 <= j < mr.len() && #[trigger] in_window(mr[j], c.sheet, r, ctx);
                assert(mr[j].0 == c.sheet);
            }
        }
    }
}

/// Context never crosses sheets: in what `emit_with_context` gives, every
/// Match or Context event at (sheet, row) has a match position on that
/// same sheet no more than `before` rows below it or `after` rows above it.
pub proof fn lemma_context_stays_on_the_match_sheet(
    cells: Seq<CellView>,
    mr: Seq<(Seq<char>, u32)>,
    ctx: ContextOptions,
)
    ensures
        forall|k: int|
            0 <= k < context_events(cells, mr, ctx, cells.len() as int).len() && (#[trigger] event_place(
                context_events(cells, mr, ctx, cells.len() as int)[k],
            )) is Some ==> {
                let pl = event_place(context_events(cells, mr, ctx, cells.len() as int)[k]).unwrap();
                exists|j: int|
                    0 <= j < mr.len() && (#[trigger] mr[j]).0 == pl.0 && mr[j].1 - ctx.before <= pl.1 <= mr[j].1
                        + ctx.after
            },
{
    lemma_context_places(cells, mr, ctx, cells.len() as int);
}

proof fn lemma_hit_rows_from_hits(cells: Seq<CellView>, p: Pattern, invert: bool, n: int)
    requires
        0 <= n <= cells.len(),
    ensures
        forall|j: int|
            #![trigger hit_rows(cells, p, invert, n)[j]]
            0 <= j < hit_rows(cells, p, invert, n).len() ==> exists|i: int|
                0 <= i < n && is_hit(p, invert, (#[trigger] cells[i]).text) && cells[i].sheet == hit_rows(
                    cells,
                    p,
                    invert,
                    n,
                )[j].0 && a1_row(cells[i].cell) == Some(hit_rows(cells, p, invert, n)[j].1),
    decreases n,
{
    if n > 0 {
        lemma_hit_rows_from_hits(cells, p, invert, n - 1);
        let prev = hit_rows(cells, p, invert, n - 1);
        let cur = hit_rows(cells, p, invert, n);
        assert forall|j: int| #![trigger cur[j]] 0 <= j < cur.len() implies exists|i: int|
            0 <= i < n && is_hit(p, invert, (#[trigger] cells[i]).text) && cells[i].sheet == cur[j].0 && a1_row(
                cells[i].cell,
            ) == Some(cur[j].1) by {
            if j < prev.len() {
                assert(cur[j] == prev[j]);
                let i = choose|i: int|
                    0 <= i < n - 1 && is_hit(p, invert, (#[trigger] cells[i]).text) && cells[i].sheet == prev[j].0
                        && a1_row(cells[i].cell) == Some(prev[j].1);
                assert(cells[i].sheet == cur[j].0);
            } else {
                let c = cells[n - 1];
                assert(cur[j] == (c.sheet, a1_row(c.cell).unwrap()));
                assert(cells[n - 1].sheet == cur[j].0);
            }
        }
    } else {
        assert(hit_rows(cells, p, invert, n).len() == 0);
    }
}

proof fn lemma_direct_places(path: Seq<char>, cells: Seq<CellView>, p: Pattern, invert: bool, n: int)
    requires
        0 <= n <= cells.len(),
    ensures
        forall|k: int|
            0 <= k < direct_events(path, cells, p, invert, n).len() && (#[trigger] event_place(
                direct_events(path, cells, p, invert, n)[k],
            )) is Some ==> exists|i: int|
                0 <= i < n && is_hit(p, invert, (#[trigger] cells[i]).text) && cells[i].sheet == event_place(
                    direct_events(path, cells, p, invert, n)[k],
                ).unwrap().0 && a1_row(cells[i].cell) == Some(
                    event_place(direct_events(path, cells, p, invert, n)[k]).unwrap().1,
                ),
    decreases n,
{
    if n > 0 {
        lemma_direct_places(path, cells, p, invert, n - 1);
        let prev = direct_events(path, cells, p, invert, n - 1);
        let ev = direct_events(path, cells, p, invert, n);
        assert forall|k: int| 0 <= k < ev.len() && (#[trigger] event_place(ev[k])) is Some implies exists|i: int|
            0 <= i < n && is_hit(p, invert, (#[trigger] cells[i]).text) && cells[i].sheet == event_place(
                ev[k],
            ).unwrap().0 && a1_row(cells[i].cell) == Some(event_place(ev[k]).unwrap().1) by {
            if k < prev.len() {
                assert(ev[k] == prev[k]);
            } else {
                assert(ev[k] == hit_event(path, cells[n - 1], p, invert));
                assert(cells[n - 1].sheet == event_place(ev[k]).unwrap().0);
            }
        }
    }
}

/// Context never crosses sheets, and every reported cell is near a hit:
/// in a file's block, each Match or Context event at (sheet, row) has a hit
/// cell on that same sheet whose row is no more than `before` rows below or
/// `after` rows above it.
pub proof fn lemma_reported_cells_are_near_a_hit_on_their_sheet(
    path: Seq<char>,
    cells: Seq<CellView>,
    p: Pattern,
    invert: bool,
    ctx: ContextOptions,
)
    ensures
        forall|k: int|
            0 <= k < file_events(path, Ok(cells), p, invert, ctx).len() && (#[trigger] event_place(
                file_events(path, Ok(cells), p, invert, ctx)[k],
            )) is Some ==> {
                let pl = event_place(file_events(path, Ok(cells), p, invert, ctx)[k]).unwrap();
                exists|i: int|
                    0 <= i < cells.len() && is_hit(p, invert, (#[trigger] cells[i]).text) && cells[i].sheet
                        == pl.0 && (a1_row(cells[i].cell) matches Some(r) && r - ctx.before <= pl.1 <= r
                        + ctx.after)
            },
{
    let ev = file_events(path, Ok(cells), p, invert, ctx);
    let body = body_events(path, cells, p, invert, ctx);
    let n = cells.len() as int;
    assert forall|k: int| 0 <= k < ev.len() && (#[trigger] event_place(ev[k])) is Some implies {
        let pl = event_place(ev[k]).unwrap();
        exists|i: int|
            0 <= i < cells.len() && is_hit(p, invert, (#[trigger] cells[i]).text) && cells[i].sheet == pl.0 && (
            a1_row(cells[i].cell) matches Some(r) && r - ctx.before <= pl.1 <= r + ctx.after)
    } by {
        let pl = event_place(ev[k]).unwrap();
        assert(0 < k < ev.len() - 1);
        assert(ev[k] == body[k - 1]);
        if ctx.before == 0 && ctx.after == 0 {
            lemma_direct_places(path, cells, p, invert, n);
            assert(body == direct_events(path, cells, p, invert, n));
            assert(event_place(body[k - 1]) is Some);
        } else {
            let mr = hit_rows(cells, p, invert, n);
            let raw = context_events(cells, mr, ctx, n);
            assert(body[k - 1] == fill_event(path, p, invert, raw[k - 1]));
            assert(event_place(fill_event(path, p, invert, raw[k - 1])) == event_place(raw[k - 1]));
            lemma_context_places(cells, mr, ctx, n);
            assert(event_place(raw[k - 1]) is Some);
            let j = choose|j: int|
                0 <= j < mr.len() && (#[trigger] mr[j]).0 == pl.0 && mr[j].1 - ctx.before <= pl.1 <= mr[j].1
                    + ctx.after;
            lemma_hit_rows_from_hits(cells, p, invert, n);
            let i = choose|i: int|
                0 <= i < n && is_hit(p, invert, (#[trigger] cells[i]).text) && cells[i].sheet == mr[j].0
                    && a1_row(cells[i].cell) == Some(mr[j].1);
            assert(cells[i].sheet == pl.0);
        }
    }
}

/// A cell counts as a hit when its text matches (or, with `invert`, does
/// not match) the pattern.
pub open spec fn is_hit(p: Pattern, invert: bool, text: Seq<char>) -> bool {
    if invert {
        !p.matches(text)
    } else {
        p.matches(text)
    }
}

/// The submatches reported for a Match event on `text`: none when
/// inverted, else one per regex match, as character ranges.
pub open spec fn submatches_for(p: Pattern, invert: bool, text: Seq<char>) -> Seq<SubmatchView> {
    if invert {
        seq![]
    } else {
        p.spans(text).map_values(|sp: (int, int)| char_range(text, sp.0, sp.1))
    }
}

/// The number of hits among the first `n` cells.
pub open spec fn hit_count(cells: Seq<CellView>, p: Pattern, invert: bool, n: int) -> nat
    decreases n,
{
    if n <= 0 {
        0
    } else {
        hit_count(cells, p, invert, n - 1) + if is_hit(p, invert, cells[n - 1].text) {
            1nat
        } else {
            0nat
        }
    }
}

/// The (sheet, row) of each hit among the first `n` cells whose address
/// has a row, in cell order.
pub open spec fn hit_rows(cells: Seq<CellView>, p: Pattern, invert: bool, n: int) -> Seq<(Seq<char>, u32)>
    decreases n,
{
    if n <= 0 {
        seq![]
    } else {
        let c = cells[n - 1];
        let prev = hit_rows(cells, p, invert, n - 1);
        if is_hit(p, invert, c.text) && a1_row(c.cell) is Some {
            prev.push((c.sheet, a1_row(c.cell).unwrap()))
        } else {
            prev
        }
    }
}

/// The Match event reported for a hit cell.
pub open spec fn hit_event(path: Seq<char>, c: CellView, p: Pattern, invert: bool) -> EventView {
    EventView::Match {
        path,
        sheet: c.sheet,
        cell: c.cell,
        layer: layer_name(c.layer),
        text: c.text,
        submatches: submatches_for(p, invert, c.text),
    }
}

/// Without context: one Match event per hit among the first `n` cells.
pub open spec fn direct_events(path: Seq<char>, cells: Seq<CellView>, p: Pattern, invert: bool, n: int) -> Seq<
    EventView,
>
    decreases n,
{
    if n <= 0 {
        seq![]
    } else {
        let prev = direct_events(path, cells, p, invert, n - 1);
        if is_hit(p, invert, cells[n - 1].text) {
            prev.push(hit_event(path, cells[n - 1], p, invert))
        } else {
            prev
        }
    }
}

/// A context-mode event with the path filled in. A cell on a match row
/// stays a Match, with its submatches, only when its own text is a hit;
/// any other shown cell is a Context event.
pub open spec fn fill_event(path: Seq<char>, p: Pattern, invert: bool, e: EventView) -> EventView {
    match e {
        EventView::Match { sheet, cell, layer, text, .. } => if is_hit(p, invert, text) {
            EventView::Match { path, sheet, cell, layer, text, submatches: submatches_for(p, invert, text) }
        } else {
            EventView::Context { path, sheet, cell, layer, text }
        },
        EventView::Context { sheet, cell, layer, text, .. } => EventView::Context {
            path,
            sheet,
            cell,
            layer,
            text,
        },
        _ => e,
    }
}

/// The distinct sheet names of the cells.
pub open spec fn sheet_set(cells: Seq<CellView>) -> Set<Seq<char>> {
    cells.map_values(|c: CellView| c.sheet).to_set()
}

/// The body of a file's block: Match events only, or Match/Context/
/// Separator events when context rows were asked for.
pub open spec fn body_events(path: Seq<char>, cells: Seq<CellView>, p: Pattern, invert: bool, ctx: ContextOptions) -> Seq<
    EventView,
> {
    if ctx.before == 0 && ctx.after == 0 {
        direct_events(path, cells, p, invert, cells.len() as int)
    } else {
        context_events(cells, hit_rows(cells, p, invert, cells.len() as int), ctx, cells.len() as int).map_values(
            |e: EventView| fill_event(path, p, invert, e),
        )
    }
}

/// The complete block for a file: FileBegin, then the body and FileEnd
/// with the hit count and the number of distinct sheets; or, when the
/// file could not be read, FileBegin, Error and a FileEnd with zero counts.
pub open spec fn file_events(
    path: Seq<char>,
    read: Result<Seq<CellView>, SearchError>,
    p: Pattern,
    invert: bool,
    ctx: ContextOptions,
) -> Seq<EventView> {
    match read {
        Ok(cells) => seq![EventView::FileBegin { path }] + body_events(path, cells, p, invert, ctx) + seq![
            EventView::FileEnd {
                path,
                matches: hit_count(cells, p, invert, cells.len() as int) as u64,
                sheets_scanned: sheet_set(cells).len() as u32,
            },
        ],
        Err(e) => seq![
            EventView::FileBegin { path },
            EventView::Error { path, message: error_message(e) },
            EventView::FileEnd { path, matches: 0, sheets_scanned: 0 },
        ],
    }
}

/// The cells a read produced, as plain values.
pub open spec fn read_view(read: Result<Vec<CellRecord>, SearchError>) -> Result<Seq<CellView>, SearchError> {
    match read {
        Ok(v) => Ok(cell_views(v@)),
        Err(e) => Err(e),
    }
}

/// The submatches of `text`: none when inverted, else each regex match as
/// a character range.
fn submatches_of(pattern: &Pattern, invert: bool, text: &str) -> (r: Vec<Submatch>)
    ensures
        submatch_views(r@) == submatches_for(*pattern, invert, text@),
{
    if invert {
        let r: Vec<Submatch> = Vec::new();
        assert(submatch_views(r@) =~= Seq::<SubmatchView>::empty());
        return r;
    }
    let hits = pattern.find_iter(text);
    let ghost spans = pattern.spans(text@);
    let mut out: Vec<Submatch> = Vec::new();
    let mut k: usize = 0;
    while k < hits.len()
        invariant
            k <= hits@.len(),
            hits@.len() == spans.len(),
            spans == pattern.spans(text@),
            forall|j: int| 0 <= j < hits@.len() ==> (#[trigger] hits@[j]).0 == spans[j].0 && hits@[j].1 == spans[j].1,
            crate::matcher::spans_ok(text.spec_bytes(), hits@),
            submatch_views(out@) =~= spans.subrange(0, k as int).map_values(
                |sp: (int, int)| char_range(text@, sp.0, sp.1),
            ),
        decreases hits@.len() - k,
    {
        let (s, e) = hits[k];
        assert(char_span(text.spec_bytes(), hits@[k as int].0 as int, hits@[k as int].1 as int));
        let sm = bytes_to_char_range(text, s, e);
        let ghost old_out = out@;
        out.push(sm);
        proof {
            assert(submatch_views(out@) =~= submatch_views(old_out).push(sm@));
            assert(spans.subrange(0, k + 1) =~= spans.subrange(0, k as int).push(spans[k as int]));
        }
        k = k + 1;
    }
    assert(spans.subrange(0, k as int) =~= spans);
    out
}

/// Record `sheet` among the distinct sheet names seen.
fn note_sheet(seen: &mut Vec<String>, sheet: &String)
    requires
        old(seen)@.map_values(|x: String| x@).no_duplicates(),
    ensures
        final(seen)@.map_values(|x: String| x@).no_duplicates(),
        final(seen)@.map_values(|x: String| x@).to_set() == old(seen)@.map_values(|x: String| x@).to_set().insert(
            sheet@,
        ),
{
    let ghost names = seen@.map_values(|x: String| x@);
    let n = seen.len();
    if n > 0 && str_eq(seen[n - 1].as_str(), sheet.as_str()) {
        assert(names[n - 1] == sheet@);
        assert(names.to_set().insert(sheet@) =~= names.to_set());
        return;
    }
    let mut j: usize = 0;
    while j < seen.len()
        invariant
            j <= seen@.len(),
            names == seen@.map_values(|x: String| x@),
            names.no_duplicates(),
            forall|i: int| 0 <= i < j ==> names[i] != sheet@,
        decreases seen@.len() - j,
    {
        if str_eq(seen[j].as_str(), sheet.as_str()) {
            assert(names[j as int] == sheet@);
            assert(names.to_set().insert(sheet@) =~= names.to_set());
            return;
        }
        j = j + 1;
    }
    seen.push(sheet.clone());
    proof {
        let names2 = seen@.map_values(|x: String| x@);
        assert(names2 =~= names.push(sheet@));
        assert forall|x: Seq<char>| names2.to_set().contains(x) == names.to_set().insert(sheet@).contains(x) by {
            if names2.contains(x) {
                let i = choose|i: int| 0 <= i < names2.len() && names2[i] == x;
                if i < names.len() {
                    assert(names[i] == x);
                }
            }
            if names.contains(x) {
                let i = choose|i: int| 0 <= i < names.len() && names[i] == x;
                assert(names2[i] == x);
            }
            if x == sheet@ {
                assert(names2[names.len() as int] == x);
            }
        }
        assert(names2.to_set() =~= names.to_set().insert(sheet@));
    }
}

/// The number of distinct sheets among the cells.
fn count_sheets(cells: &Vec<CellRecord>) -> (r: u32)
    ensures
        r == sheet_set(cell_views(cells@)).len() as u32,
{
    let ghost cv = cell_views(cells@);
    let mut seen: Vec<String> = Vec::new();
    let mut i: usize = 0;
    proof {
        assert(seen@.map_values(|x: String| x@).to_set() =~= cv.subrange(0, 0).map_values(|c: CellView| c.sheet).to_set());
    }
    while i < cells.len()
        invariant
            i <= cells@.len(),
            cv == cell_views(cells@),
            seen@.map_values(|x: String| x@).no_duplicates(),
            seen@.map_values(|x: String| x@).to_set() == cv.subrange(0, i as int).map_values(|c: CellView| c.sheet).to_set(),
        decreases cells@.len() - i,
    {
        let ghost before = cv.subrange(0, i as int).map_values(|c: CellView| c.sheet);
        note_sheet(&mut seen, &cells[i].sheet);
        proof {
            let after = cv.subrange(0, i + 1).map_values(|c: CellView| c.sheet);
            assert(after =~= before.push(cells@[i as int].sheet@));
            assert forall|x: Seq<char>| after.to_set().contains(x) == before.to_set().insert(cells@[i as int].sheet@).contains(x) by {
                if after.contains(x) {
                    let k = choose|k: int| 0 <= k < after.len() && after[k] == x;
                    if k < before.len() {
                        assert(before[k] == x);
                    }
                }
                if before.contains(x) {
                    let k = choose|k: int| 0 <= k < before.len() && before[k] == x;
                    assert(after[k] == x);
                }
                if x == cells@[i as int].sheet@ {
                    assert(after[before.len() as int] == x);
                }
            }
            assert(after.to_set() =~= before.to_set().insert(cells@[i as int].sheet@));
        }
        i = i + 1;
    }
    proof {
        assert(cv.subrange(0, i as int) =~= cv);
        seen@.map_values(|x: String| x@).unique_seq_to_set();
    }
    seen.len() as u32
}

proof fn lemma_hit_count_bound(cells: Seq<CellView>, p: Pattern, invert: bool, n: int)
    requires
        0 <= n,
    ensures
        hit_count(cells, p, invert, n) <= n,
    decreases n,
{
    if n > 0 {
        lemma_hit_count_bound(cells, p, invert, n - 1);
    }
}

/// Without context: one Match event per hit cell, and the hit count.
fn collect_direct(path: &str, cells: &Vec<CellRecord>, pattern: &Pattern, invert: bool) -> (r: (Vec<MatchEvent>, u64))
    ensures
        event_views(r.0@) == direct_events(path@, cell_views(cells@), *pattern, invert, cells@.len() as int),
        r.1 == hit_count(cell_views(cells@), *pattern, invert, cells@.len() as int),
{
    let ghost cv = cell_views(cells@);
    let mut events: Vec<MatchEvent> = Vec::new();
    let mut matches: u64 = 0;
    let mut i: usize = 0;
    while i < cells.len()
        invariant
            i <= cells@.len(),
            cv == cell_views(cells@),
            event_views(events@) == direct_events(path@, cv, *pattern, invert, i as int),
            matches == hit_count(cv, *pattern, invert, i as int),
        decreases cells@.len() - i,
    {
        let c = &cells[i];
        assert(cv[i as int] == c@);
        let has_hit = pattern.is_match(c.text.as_str());
        let emit = if invert {
            !has_hit
        } else {
            has_hit
        };
        if emit {
            let submatches = submatches_of(pattern, invert, c.text.as_str());
            proof {
                lemma_hit_count_bound(cv, *pattern, invert, i as int);
            }
            matches = matches + 1;
            let ev = MatchEvent::Match {
                path: path.to_owned(),
                sheet: c.sheet.clone(),
                cell: c.cell.clone(),
                layer: c.layer.as_str().to_owned(),
                text: c.text.clone(),
                submatches,
            };
            proof {
                lemma_event_views_push(events@, ev);
            }
            events.push(ev);
        }
        i = i + 1;
    }
    (events, matches)
}

/// With context: the (sheet, row) of every hit whose address has a row,
/// and the hit count.
fn collect_hit_rows(cells: &Vec<CellRecord>, pattern: &Pattern, invert: bool) -> (r: (Vec<(String, u32)>, u64))
    ensures
        row_keys(r.0@) == hit_rows(cell_views(cells@), *pattern, invert, cells@.len() as int),
        r.1 == hit_count(cell_views(cells@), *pattern, invert, cells@.len() as int),
{
    let ghost cv = cell_views(cells@);
    let mut rows: Vec<(String, u32)> = Vec::new();
    let mut matches: u64 = 0;
    let mut i: usize = 0;
    while i < cells.len()
        invariant
            i <= cells@.len(),
            cv == cell_views(cells@),
            row_keys(rows@) == hit_rows(cv, *pattern, invert, i as int),
            matches == hit_count(cv, *pattern, invert, i as int),
        decreases cells@.len() - i,
    {
        let c = &cells[i];
        assert(cv[i as int] == c@);
        let has_hit = pattern.is_match(c.text.as_str());
        let is_match = if invert {
            !has_hit
        } else {
            has_hit
        };
        if is_match {
            proof {
                lemma_hit_count_bound(cv, *pattern, invert, i as int);
            }
            matches = matches + 1;
            match row_from_a1(c.cell.as_str()) {
                Some(r) => {
                    let ghost old_rows = rows@;
                    rows.push((c.sheet.clone(), r));
                    assert(row_keys(rows@) =~= row_keys(old_rows).push((c.sheet@, r)));
                },
                None => {},
            }
        }
        i = i + 1;
    }
    (rows, matches)
}

/// Fill in the path and the submatches of context-mode events.
fn fill_events(path: &str, pattern: &Pattern, invert: bool, evs: Vec<MatchEvent>, out: &mut Vec<MatchEvent>)
    ensures
        event_views(final(out)@) == event_views(old(out)@) + event_views(evs@).map_values(
            |e: EventView| fill_event(path@, *pattern, invert, e),
        ),
{
    let ghost start = event_views(out@);
    let ghost src = event_views(evs@);
    let mut k: usize = 0;
    while k < evs.len()
        invariant
            k <= evs@.len(),
            src == event_views(evs@),
            event_views(out@) == start + src.subrange(0, k as int).map_values(
                |e: EventView| fill_event(path@, *pattern, invert, e),
            ),
        decreases evs@.len() - k,
    {
        let filled = match &evs[k] {
            MatchEvent::Match { sheet, cell, layer, text, .. } => {
                let has_hit = pattern.is_match(text.as_str());
                let hit = if invert {
                    !has_hit
                } else {
                    has_hit
                };
                if hit {
                    let submatches = submatches_of(pattern, invert, text.as_str());
                    MatchEvent::Match {
                        path: path.to_owned(),
                        sheet: sheet.clone(),
                        cell: cell.clone(),
                        layer: layer.clone(),
                        text: text.clone(),
                        submatches,
                    }
                } else {
                    MatchEvent::Context {
                        path: path.to_owned(),
                        sheet: sheet.clone(),
                        cell: cell.clone(),
                        layer: layer.clone(),
                        text: text.clone(),
                    }
                }
            },
            MatchEvent::Context { sheet, cell, layer, text, .. } => MatchEvent::Context {
                path: path.to_owned(),
                sheet: sheet.clone(),
                cell: cell.clone(),
                layer: layer.clone(),
                text: text.clone(),
            },
            MatchEvent::Separator => MatchEvent::Separator,
            MatchEvent::FileBegin { path } => MatchEvent::FileBegin { path: path.clone() },
            MatchEvent::FileEnd { path, stats } => MatchEvent::FileEnd { path: path.clone(), stats: *stats },
            MatchEvent::Error { path, message } => MatchEvent::Error { path: path.clone(), message: message.clone() },
        };
        proof {
            assert(filled@ == fill_event(path@, *pattern, invert, src[k as int]));
            lemma_event_views_push(out@, filled);
            assert(src.subrange(0, k + 1) =~= src.subrange(0, k as int).push(src[k as int]));
        }
        out.push(filled);
        proof {
            assert(src.subrange(0, k + 1).map_values(|e: EventView| fill_event(path@, *pattern, invert, e))
                =~= src.subrange(0, k as int).map_values(|e: EventView| fill_event(path@, *pattern, invert, e)).push(
                fill_event(path@, *pattern, invert, src[k as int]),
            ));
        }
        k = k + 1;
    }
    assert(src.subrange(0, k as int) =~= src);
}

/// Search one file's cells, returning a complete FileBlock ready for the
/// printer.
///
/// `read` is what reading the file gave: its cells in reader order, or the
/// error that stopped the read. `invert`: report the cells whose text does
/// *not* match the pattern (rg `-v`). `ctx`: context rows; when zero, one
/// Match event per hit cell; otherwise Match/Context/Separator events for
/// the rows around the hits.
pub fn search_file(
    path: &str,
    read: Result<Vec<CellRecord>, SearchError>,
    pattern: &Pattern,
    invert: bool,
    ctx: ContextOptions,
) -> (r: FileBlock)
    ensures
        r@ == file_events(path@, read_view(read), *pattern, invert, ctx),
{
    let mut events: Vec<MatchEvent> = Vec::new();
    events.push(MatchEvent::FileBegin { path: path.to_owned() });
    let ghost rv = read_view(read);
    match read {
        Ok(cells) => {
            let ghost cv = cell_views(cells@);
            let sheets = count_sheets(&cells);
            let matches = if ctx.is_zero() {
                let (body, matches) = collect_direct(path, &cells, pattern, invert);
                let ghost head = events@;
                let mut body = body;
                events.append(&mut body);
                proof {
                    assert(event_views(events@) =~= event_views(head) + direct_events(path@, cv, *pattern, invert, cv.len() as int));
                }
                matches
            } else {
                let (rows, matches) = collect_hit_rows(&cells, pattern, invert);
                let ctx_events = emit_with_context(cells.as_slice(), rows.as_slice(), ctx);
                fill_events(path, pattern, invert, ctx_events, &mut events);
                matches
            };
            let end = MatchEvent::FileEnd { path: path.to_owned(), stats: FileStats { matches, sheets_scanned: sheets } };
            proof {
                lemma_event_views_push(events@, end);
            }
            events.push(end);
            proof {
                assert(event_views(events@) =~= file_events(path@, rv, *pattern, invert, ctx));
            }
        },
        Err(e) => {
            let message = e.message();
            let err = MatchEvent::Error { path: path.to_owned(), message };
            proof {
                lemma_event_views_push(events@, err);
            }
            events.push(err);
            let end = MatchEvent::FileEnd { path: path.to_owned(), stats: FileStats::default() };
            proof {
                lemma_event_views_push(events@, end);
            }
            events.push(end);
            proof {
                assert(event_views(events@) =~= file_events(path@, rv, *pattern, invert, ctx));
            }
        },
    }
    FileBlock { events }
}

/// A body event: a Match, Context or Separator.
pub open spec fn is_body_event(e: EventView) -> bool {
    e is Match || e is Context || e is Separator
}

proof fn lemma_direct_events_are_matches(path: Seq<char>, cells: Seq<CellView>, p: Pattern, invert: bool, n: int)
    ensures
        forall|k: int|
            0 <= k < direct_events(path, cells, p, invert, n).len() ==> #[trigger] direct_events(
                path,
                cells,
                p,
                invert,
                n,
            )[k] is Match,
    decreases n,
{
    if n > 0 {
        lemma_direct_events_are_matches(path, cells, p, invert, n - 1);
        let prev = direct_events(path, cells, p, invert, n - 1);
        let ev = direct_events(path, cells, p, invert, n);
        assert forall|k: int| 0 <= k < ev.len() implies #[trigger] ev[k] is Match by {
            if k < prev.len() {
                assert(ev[k] == prev[k]);
            }
        }
    }
}

/// A file's block opens with FileBegin and closes with FileEnd, both for
/// the file's path; between them stand only Match, Context and Separator
/// events, or, when the file could not be read, exactly one Error event.
pub proof fn lemma_block_framing(
    path: Seq<char>,
    read: Result<Seq<CellView>, SearchError>,
    p: Pattern,
    invert: bool,
    ctx: ContextOptions,
)
    ensures
        ({
            let ev = file_events(path, read, p, invert, ctx);
            &&& ev.len() >= 2
            &&& ev[0] == EventView::FileBegin { path }
            &&& ev.last() matches EventView::FileEnd { path: q, .. } && q == path
            &&& read is Ok ==> forall|k: int| 0 < k < ev.len() - 1 ==> is_body_event(#[trigger] ev[k])
            &&& read is Err ==> ev.len() == 3 && ev[1] is Error
        }),
{
    if let Ok(cells) = read {
        let body = body_events(path, cells, p, invert, ctx);
        let ev = file_events(path, read, p, invert, ctx);
        assert forall|k: int| 0 <= k < body.len() implies is_body_event(#[trigger] body[k]) by {
            if ctx.before == 0 && ctx.after == 0 {
                lemma_direct_events_are_matches(path, cells, p, invert, cells.len() as int);
            } else {
                let mr = hit_rows(cells, p, invert, cells.len() as int);
                lemma_context_shape(cells, mr, ctx, cells.len() as int);
                let raw = context_events(cells, mr, ctx, cells.len() as int);
                assert(raw[k] is Separator || event_place(raw[k]) is Some);
            }
        }
        assert forall|k: int| 0 < k < ev.len() - 1 implies is_body_event(#[trigger] ev[k]) by {
            assert(ev[k] == body[k - 1]);
        }
    }
}

/// The FileEnd count is the number of hit cells whatever the context
/// options: context rows add Context events, never matches.
pub proof fn lemma_count_ignores_context(
    path: Seq<char>,
    cells: Seq<CellView>,
    p: Pattern,
    invert: bool,
    ctx1: ContextOptions,
    ctx2: ContextOptions,
)
    requires
        cells.len() <= usize::MAX,
    ensures
        file_events(path, Ok(cells), p, invert, ctx1).last() == file_events(path, Ok(cells), p, invert, ctx2).last(),
        file_events(path, Ok(cells), p, invert, ctx1).last() matches EventView::FileEnd { matches, .. } && matches
            == hit_count(cells, p, invert, cells.len() as int),
{
    lemma_hit_count_bound(cells, p, invert, cells.len() as int);
}

/// Every cell is a hit either with or without `invert`, never both: the
/// two counts add up to the number of cells.
pub proof fn lemma_invert_partitions(cells: Seq<CellView>, p: Pattern, n: int)
    requires
        0 <= n <= cells.len(),
    ensures
        hit_count(cells, p, false, n) + hit_count(cells, p, true, n) == n,
    decreases n,
{
    if n > 0 {
        lemma_invert_partitions(cells, p, n - 1);
    }
}

proof fn lemma_prefix_chars(h: Seq<char>, s: int)
    requires
        0 <= s <= encode_utf8(h).len(),
        is_char_boundary(encode_utf8(h), s),
    ensures
        h == decode_utf8(encode_utf8(h).subrange(0, s)) + decode_utf8(
            encode_utf8(h).subrange(s, encode_utf8(h).len() as int),
        ),
{
    let b = encode_utf8(h);
    encode_utf8_valid_utf8(h);
    encode_utf8_decode_utf8(h);
    decode_utf8_split(b, s);
}

/// A submatch's offsets are character offsets into the cell text, half
/// open: its text is exactly the characters `start..end` of the text.
pub proof fn lemma_submatch_is_substring(h: Seq<char>, s: int, e: int)
    requires
        char_span(encode_utf8(h), s, e),
    ensures
        0 <= char_range(h, s, e).start <= char_range(h, s, e).end <= h.len(),
        char_range(h, s, e).text == h.subrange(char_range(h, s, e).start, char_range(h, s, e).end),
{
    let b = encode_utf8(h);
    encode_utf8_valid_utf8(h);
    lemma_boundary_in_prefix(b, s, e);
    let pre = b.subrange(0, e);
    decode_utf8_split(pre, s);
    assert(pre.subrange(0, s) =~= b.subrange(0, s));
    assert(pre.subrange(s, pre.len() as int) =~= b.subrange(s, e));
    lemma_prefix_chars(h, e);
    let a = decode_utf8(b.subrange(0, s));
    let t = decode_utf8(b.subrange(s, e));
    let c = decode_utf8(b.subrange(e, b.len() as int));
    assert(h == a + t + c);
    assert(h.subrange(a.len() as int, (a.len() + t.len()) as int) =~= t);
}

/// Every submatch starts no later than it ends.
pub open spec fn subs_ordered(subs: Seq<SubmatchView>) -> bool {
    forall|j: int| 0 <= j < subs.len() ==> (#[trigger] subs[j]).start <= subs[j].end
}

proof fn lemma_submatches_for_ordered(p: Pattern, invert: bool, text: Seq<char>)
    ensures
        subs_ordered(submatches_for(p, invert, text)),
{
}

proof fn lemma_direct_events_ordered(path: Seq<char>, cells: Seq<CellView>, p: Pattern, invert: bool, n: int)
    ensures
        forall|k: int|
            0 <= k < direct_events(path, cells, p, invert, n).len() ==> subs_ordered(
                crate::printer::event_subs(#[trigger] direct_events(path, cells, p, invert, n)[k]),
            ),
    decreases n,
{
    if n > 0 {
        lemma_direct_events_ordered(path, cells, p, invert, n - 1);
        let prev = direct_events(path, cells, p, invert, n - 1);
        let ev = direct_events(path, cells, p, invert, n);
        lemma_submatches_for_ordered(p, invert, cells[n - 1].text);
        assert forall|k: int| 0 <= k < ev.len() implies subs_ordered(crate::printer::event_subs(#[trigger] ev[k])) by {
            if k < prev.len() {
                assert(ev[k] == prev[k]);
            }
        }
    }
}

/// What `search_file` gives can always be printed: the submatches of
/// every Match event start no later than they end.
pub proof fn lemma_file_events_printable(
    path: Seq<char>,
    read: Result<Seq<CellView>, SearchError>,
    p: Pattern,
    invert: bool,
    ctx: ContextOptions,
)
    ensures
        crate::printer::submatches_ordered(file_events(path, read, p, invert, ctx)),
{
    let ev = file_events(path, read, p, invert, ctx);
    if let Ok(cells) = read {
        let body = body_events(path, cells, p, invert, ctx);
        assert forall|k: int| 0 <= k < body.len() implies subs_ordered(crate::printer::event_subs(#[trigger] body[k])) by {
            if ctx.before == 0 && ctx.after == 0 {
                lemma_direct_events_ordered(path, cells, p, invert, cells.len() as int);
            } else {
                let raw = context_events(cells, hit_rows(cells, p, invert, cells.len() as int), ctx, cells.len() as int);
                lemma_submatches_for_ordered(p, invert, event_text(raw[k]));
            }
        }
        assert forall|k: int, j: int|
            0 <= k < ev.len() && 0 <= j < crate::printer::event_subs(ev[k]).len() implies #[trigger] crate::printer::event_subs(
            ev[k],
        )[j].start <= crate::printer::event_subs(ev[k])[j].end by {
            if 0 < k < ev.len() - 1 {
                assert(ev[k] == body[k - 1]);
                assert(subs_ordered(crate::printer::event_subs(body[k - 1])));
            }
        }
    }
}

/// Match events carry hit text and Context events carry non-hit text.
pub open spec fn events_classified(ev: Seq<EventView>, p: Pattern, invert: bool) -> bool {
    forall|k: int|
        0 <= k < ev.len() ==> {
            &&& (#[trigger] ev[k] is Match ==> is_hit(p, invert, event_text(ev[k])))
            &&& (ev[k] is Context ==> !is_hit(p, invert, event_text(ev[k])))
        }
}

proof fn lemma_direct_classified(path: Seq<char>, cells: Seq<CellView>, p: Pattern, invert: bool, n: int)
    ensures
        events_classified(direct_events(path, cells, p, invert, n), p, invert),
    decreases n,
{
    if n > 0 {
        lemma_direct_classified(path, cells, p, invert, n - 1);
        let prev = direct_events(path, cells, p, invert, n - 1);
        let ev = direct_events(path, cells, p, invert, n);
        assert forall|k: int| 0 <= k < ev.len() implies {
            &&& (#[trigger] ev[k] is Match ==> is_hit(p, invert, event_text(ev[k])))
            &&& (ev[k] is Context ==> !is_hit(p, invert, event_text(ev[k])))
        } by {
            if k < prev.len() {
                assert(ev[k] == prev[k]);
            }
        }
    }
}

proof fn lemma_context_classified(
    path: Seq<char>,
    cells: Seq<CellView>,
    p: Pattern,
    invert: bool,
    ctx: ContextOptions,
    n: int,
)
    requires
        0 <= n <= cells.len(),
    ensures
        events_classified(
            context_events(cells, hit_rows(cells, p, invert, cells.len() as int), ctx, n).map_values(
                |e: EventView| fill_event(path, p, invert, e),
            ),
            p,
            invert,
        ),
    decreases n,
{
    if n > 0 {
        lemma_context_classified(path, cells, p, invert, ctx, n - 1);
        let mr = hit_rows(cells, p, invert, cells.len() as int);
        let prev = context_events(cells, mr, ctx, n - 1);
        let step = context_step(cells, mr, ctx, n - 1);
        let fp = prev.map_values(|e: EventView| fill_event(path, p, invert, e));
        let fs = step.map_values(|e: EventView| fill_event(path, p, invert, e));
        let f = context_events(cells, mr, ctx, n).map_values(|e: EventView| fill_event(path, p, invert, e));
        assert(context_events(cells, mr, ctx, n) == prev + step);
        assert(f =~= fp + fs);
        let c = cells[n - 1];
        if shown(c, mr, ctx) {
            let r = a1_row(c.cell).unwrap();
            if !is_match_row(mr, c.sheet, r) && is_hit(p, invert, c.text) {
                lemma_hit_in_rows(cells, p, invert, n - 1, cells.len() as int);
            }
        }
        assert forall|k: int| 0 <= k < fs.len() implies {
            &&& (#[trigger] fs[k] is Match ==> is_hit(p, invert, event_text(fs[k])))
            &&& (fs[k] is Context ==> !is_hit(p, invert, event_text(fs[k])))
        } by {
            assert(fs[k] == fill_event(path, p, invert, step[k]));
        }
        assert forall|k: int| 0 <= k < f.len() implies {
            &&& (#[trigger] f[k] is Match ==> is_hit(p, invert, event_text(f[k])))
            &&& (f[k] is Context ==> !is_hit(p, invert, event_text(f[k])))
        } by {
            if k < fp.len() {
                assert(f[k] == fp[k]);
            } else {
                assert(f[k] == fs[k - fp.len()]);
            }
        }
    }
}

/// A Match event always carries a cell whose text is a hit (matches, or
/// with `invert` does not match), and a Context event a cell whose text
/// is not a hit: context rows never pass a non-matching cell off as a
/// match.
pub proof fn lemma_match_events_are_hits(
    path: Seq<char>,
    cells: Seq<CellView>,
    p: Pattern,
    invert: bool,
    ctx: ContextOptions,
)
    ensures
        events_classified(file_events(path, Ok(cells), p, invert, ctx), p, invert),
{
    let ev = file_events(path, Ok(cells), p, invert, ctx);
    let body = body_events(path, cells, p, invert, ctx);
    if ctx.before == 0 && ctx.after == 0 {
        lemma_direct_classified(path, cells, p, invert, cells.len() as int);
    } else {
        lemma_context_classified(path, cells, p, invert, ctx, cells.len() as int);
    }
    assert forall|k: int| 0 <= k < ev.len() implies {
        &&& (#[trigger] ev[k] is Match ==> is_hit(p, invert, event_text(ev[k])))
        &&& (ev[k] is Context ==> !is_hit(p, invert, event_text(ev[k])))
    } by {
        if 0 < k < ev.len() - 1 {
            assert(ev[k] == body[k - 1]);
        }
    }
}

/// The text of a Match or Context event; empty for another event.
pub open spec fn event_text(e: EventView) -> Seq<char> {
    match e {
        EventView::Match { text, .. } => text,
        EventView::Context { text, .. } => text,
        _ => seq![],
    }
}

proof fn lemma_match_count_concat(a: Seq<EventView>, b: Seq<EventView>)
    ensures
        match_count(a + b, (a + b).len() as int) == match_count(a, a.len() as int) + match_count(b, b.len() as int),
    decreases b.len(),
{
    if b.len() == 0 {
        assert(a + b =~= a);
    } else {
        lemma_match_count_concat(a, b.drop_last());
        assert((a + b).drop_last() =~= a + b.drop_last());
        lemma_match_count_same(a + b, a + b.drop_last(), (a + b).len() - 1);
        lemma_match_count_same(b, b.drop_last(), b.len() - 1);
    }
}

proof fn lemma_match_count_same(a: Seq<EventView>, b: Seq<EventView>, n: int)
    requires
        0 <= n <= a.len(),
        n <= b.len(),
        forall|k: int| 0 <= k < n ==> a[k] == b[k],
    ensures
        match_count(a, n) == match_count(b, n),
    decreases n,
{
    if n > 0 {
        lemma_match_count_same(a, b, n - 1);
    }
}

/// The number of cells among the first `n` that context mode reports as
/// Match events: shown, on a match row, and a hit themselves.
pub open spec fn shown_hits(
    cells: Seq<CellView>,
    mr: Seq<(Seq<char>, u32)>,
    ctx: ContextOptions,
    p: Pattern,
    invert: bool,
    n: int,
) -> nat
    decreases n,
{
    if n <= 0 {
        0
    } else {
        let c = cells[n - 1];
        shown_hits(cells, mr, ctx, p, invert, n - 1) + if shown(c, mr, ctx) && is_match_row(
            mr,
            c.sheet,
            a1_row(c.cell).unwrap(),
        ) && is_hit(p, invert, c.text) {
            1nat
        } else {
            0nat
        }
    }
}

proof fn lemma_filled_context_count(
    cells: Seq<CellView>,
    mr: Seq<(Seq<char>, u32)>,
    ctx: ContextOptions,
    path: Seq<char>,
    p: Pattern,
    invert: bool,
    n: int,
)
    requires
        0 <= n <= cells.len(),
    ensures
        ({
            let f = context_events(cells, mr, ctx, n).map_values(|e: EventView| fill_event(path, p, invert, e));
            match_count(f, f.len() as int) == shown_hits(cells, mr, ctx, p, invert, n)
        }),
    decreases n,
{
    if n > 0 {
        lemma_filled_context_count(cells, mr, ctx, path, p, invert, n - 1);
        let prev = context_events(cells, mr, ctx, n - 1);
        let step = context_step(cells, mr, ctx, n - 1);
        let fp = prev.map_values(|e: EventView| fill_event(path, p, invert, e));
        let fs = step.map_values(|e: EventView| fill_event(path, p, invert, e));
        let f = context_events(cells, mr, ctx, n).map_values(|e: EventView| fill_event(path, p, invert, e));
        assert(context_events(cells, mr, ctx, n) == prev + step);
        assert(f =~= fp + fs);
        lemma_match_count_concat(fp, fs);
        let c = cells[n - 1];
        if shown(c, mr, ctx) {
            let r = a1_row(c.cell).unwrap();
            let e = cell_event(c, mr, r);
            let fe = fill_event(path, p, invert, e);
            assert(fe is Match <==> (is_match_row(mr, c.sheet, r) && is_hit(p, invert, c.text)));
            if needs_separator(last_shown(cells, mr, ctx, n - 1), c.sheet, r) {
                assert(step == seq![EventView::Separator, e]);
                assert(fs =~= seq![EventView::Separator, fe]);
                assert(match_count(fs, 0) == 0);
                assert(match_count(fs, 1) == 0);
                assert(match_count(fs, 2) == if fe is Match { 1nat } else { 0nat });
            } else {
                assert(step == seq![e]);
                assert(fs =~= seq![fe]);
                assert(match_count(fs, 0) == 0);
                assert(match_count(fs, 1) == if fe is Match { 1nat } else { 0nat });
            }
        } else {
            assert(step =~= Seq::<EventView>::empty());
            assert(fs =~= Seq::<EventView>::empty());
        }
    }
}

proof fn lemma_direct_match_count(path: Seq<char>, cells: Seq<CellView>, p: Pattern, invert: bool, n: int)
    requires
        0 <= n,
    ensures
        match_count(direct_events(path, cells, p, invert, n), direct_events(path, cells, p, invert, n).len() as int)
            == hit_count(cells, p, invert, n),
    decreases n,
{
    if n > 0 {
        lemma_direct_match_count(path, cells, p, invert, n - 1);
        let prev = direct_events(path, cells, p, invert, n - 1);
        if is_hit(p, invert, cells[n - 1].text) {
            let ev = prev.push(hit_event(path, cells[n - 1], p, invert));
            lemma_match_count_same(ev, prev, prev.len() as int);
        }
    }
}

proof fn lemma_hit_in_rows(cells: Seq<CellView>, p: Pattern, invert: bool, i: int, n: int)
    requires
        0 <= i < n <= cells.len(),
        is_hit(p, invert, cells[i].text),
        a1_row(cells[i].cell) is Some,
    ensures
        is_match_row(hit_rows(cells, p, invert, n), cells[i].sheet, a1_row(cells[i].cell).unwrap()),
    decreases n,
{
    let rows = hit_rows(cells, p, invert, n);
    if i == n - 1 {
        assert(rows[rows.len() - 1] == (cells[i].sheet, a1_row(cells[i].cell).unwrap()));
    } else {
        lemma_hit_in_rows(cells, p, invert, i, n - 1);
        let prev = hit_rows(cells, p, invert, n - 1);
        let k = choose|k: int| 0 <= k < prev.len() && #[trigger] prev[k] == (cells[i].sheet, a1_row(cells[i].cell).unwrap());
        assert(rows[k] == prev[k]);
    }
}

/// Every hit cell's address has a row, and every cell on a hit's row is
/// itself a hit.
/// Every hit cell's address has a row.
pub open spec fn hits_have_rows(cells: Seq<CellView>, p: Pattern, invert: bool) -> bool {
    forall|i: int| 0 <= i < cells.len() && is_hit(p, invert, (#[trigger] cells[i]).text) ==> a1_row(cells[i].cell) is Some
}

proof fn lemma_shown_hits_are_hits(cells: Seq<CellView>, p: Pattern, invert: bool, ctx: ContextOptions, n: int)
    requires
        0 <= n <= cells.len(),
        hits_have_rows(cells, p, invert),
    ensures
        shown_hits(cells, hit_rows(cells, p, invert, cells.len() as int), ctx, p, invert, n) == hit_count(cells, p, invert, n),
    decreases n,
{
    if n > 0 {
        lemma_shown_hits_are_hits(cells, p, invert, ctx, n - 1);
        let mr = hit_rows(cells, p, invert, cells.len() as int);
        let c = cells[n - 1];
        if is_hit(p, invert, c.text) {
            assert(a1_row(c.cell) is Some);
            lemma_hit_in_rows(cells, p, invert, n - 1, cells.len() as int);
            lemma_match_row_shown(cells, mr, ctx, n - 1);
        }
    }
}

proof fn lemma_single_begin(ev: Seq<EventView>, path: Seq<char>, n: int)
    requires
        1 <= n <= ev.len(),
        ev[0] == (EventView::FileBegin { path }),
        forall|k: int| 0 < k < ev.len() ==> !(#[trigger] ev[k] is FileBegin),
    ensures
        crate::printer::last_begin_path(ev, n) == Some(path),
    decreases n,
{
    if n > 1 {
        lemma_single_begin(ev, path, n - 1);
        assert(!(ev[n - 1] is FileBegin));
    }
}

/// `--count` reports matches, not output lines: with context rows the
/// count line is the same as without. Context mode can only show cells
/// that have a row, so this holds when every hit cell's address has one.
pub proof fn lemma_count_not_inflated_by_context(
    path: Seq<char>,
    cells: Seq<CellView>,
    p: Pattern,
    invert: bool,
    ctx: ContextOptions,
)
    requires
        hits_have_rows(cells, p, invert),
    ensures
        crate::printer::count_output(file_events(path, Ok(cells), p, invert, ctx)) == crate::printer::count_output(
            file_events(path, Ok(cells), p, invert, ContextOptions { before: 0, after: 0 }),
        ),
{
    let zero = ContextOptions { before: 0, after: 0 };
    let n = cells.len() as int;
    let e1 = file_events(path, Ok(cells), p, invert, ctx);
    let e0 = file_events(path, Ok(cells), p, invert, zero);
    let b1 = body_events(path, cells, p, invert, ctx);
    let b0 = body_events(path, cells, p, invert, zero);
    let end = seq![
        EventView::FileEnd {
            path,
            matches: hit_count(cells, p, invert, n) as u64,
            sheets_scanned: sheet_set(cells).len() as u32,
        },
    ];
    let begin = seq![EventView::FileBegin { path }];
    assert(e1 == begin + b1 + end);
    assert(e0 == begin + b0 + end);
    lemma_match_count_concat(begin + b1, end);
    lemma_match_count_concat(begin, b1);
    lemma_match_count_concat(begin + b0, end);
    lemma_match_count_concat(begin, b0);
    lemma_direct_match_count(path, cells, p, invert, n);
    if !(ctx.before == 0 && ctx.after == 0) {
        let mr = hit_rows(cells, p, invert, n);
        lemma_filled_context_count(cells, mr, ctx, path, p, invert, n);
        lemma_shown_hits_are_hits(cells, p, invert, ctx, n);
    }
    lemma_block_framing(path, Ok(cells), p, invert, ctx);
    lemma_block_framing(path, Ok(cells), p, invert, zero);
    assert forall|k: int| 0 < k < e1.len() implies !(#[trigger] e1[k] is FileBegin) by {
        if k < e1.len() - 1 {
            assert(is_body_event(e1[k]));
        }
    }
    assert forall|k: int| 0 < k < e0.len() implies !(#[trigger] e0[k] is FileBegin) by {
        if k < e0.len() - 1 {
            assert(is_body_event(e0[k]));
        }
    }
    lemma_single_begin(e1, path, e1.len() as int);
    lemma_single_begin(e0, path, e0.len() as int);
}

/// Convert a regex byte range (matcher returns bytes) into a 0-indexed Unicode
/// character range with the matched substring captured.
pub fn bytes_to_char_range(haystack: &str, start_b: usize, end_b: usize) -> (r: Submatch)
    requires
        char_span(haystack.spec_bytes(), start_b as int, end_b as int),
    ensures
        r@ == char_range(haystack@, start_b as int, end_b as int),
{
    let ghost b = haystack.spec_bytes();
    proof {
        encode_utf8_valid_utf8(haystack@);
        lemma_boundary_in_suffix(b, start_b as int, end_b as int);
    }
    let (prefix, rest) = haystack.split_at(start_b);
    let (mid, _tail) = rest.split_at(end_b - start_b);
    proof {
        assert(rest.spec_bytes().subrange(0, end_b - start_b) =~= b.subrange(
            start_b as int,
            end_b as int,
        ));
        encode_utf8_decode_utf8(prefix@);
        encode_utf8_decode_utf8(mid@);
        encode_utf8_decode_utf8(haystack@);
        lemma_boundary_in_prefix(b, start_b as int, end_b as int);
        decode_utf8_split(b.subrange(0, end_b as int), start_b as int);
        assert(b.subrange(0, end_b as int).subrange(0, start_b as int) =~= b.subrange(
            0,
            start_b as int,
        ));
        assert(b.subrange(0, end_b as int).subrange(start_b as int, end_b as int) =~= b.subrange(
            start_b as int,
            end_b as int,
        ));
        lemma_decode_len_le(b.subrange(0, end_b as int));
    }
    let start = prefix.unicode_len();
    let count = mid.unicode_len();
    Submatch { matched: SubmatchText { text: mid.to_owned() }, start, end: start + count }
}

} // verus!
