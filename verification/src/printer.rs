//! Output rendering. A file's block becomes the text that the output sinks
//! write for it, as styled segments: the application maps each style to a
//! color (or none) and writes the segments in order, so one file's output
//! is written atomically.

use vstd::prelude::*;
use vstd::string::StrSliceExecFns;

use crate::cell::{decimal, push_decimal};
use crate::config::{layer_name, Layer, OutputMode};
use crate::support::str_eq;
use crate::{event_views, EventView, FileBlock, MatchEvent, Submatch, SubmatchView, submatch_views};

verus! {

/// How a segment of output is colored.
#[derive(Debug, Clone, Copy, PartialEq, Eq, Structural)]
pub enum Style {
    /// Uncolored text.
    Plain,
    /// A file path (magenta, bold).
    Path,
    /// A sheet name (blue).
    Sheet,
    /// A cell address (green).
    Cell,
    /// A layer or context tag (cyan).
    Tag,
    /// Matched text (yellow, bold).
    Match,
}

/// A run of output text in one style.
#[derive(Debug, Clone)]
pub struct Segment {
    pub style: Style,
    pub text: String,
}

/// A segment as plain values.
pub struct SegView {
    pub style: Style,
    pub text: Seq<char>,
}

impl View for Segment {
    type V = SegView;

    open spec fn view(&self) -> SegView {
        SegView { style: self.style, text: self.text@ }
    }
}

/// The views of a sequence of segments.
pub open spec fn seg_views(v: Seq<Segment>) -> Seq<SegView> {
    v.map_values(|s: Segment| s@)
}

/// A segment value.
pub open spec fn seg(style: Style, text: Seq<char>) -> SegView {
    SegView { style, text }
}

/// What a block prints as: styled text, or one JSON object per event
/// (serialized by the application).
pub enum Printed {
    Segments(Vec<Segment>),
    JsonLines,
}

/// The end of a submatch range, clamped to the text length.
pub open spec fn clamp(i: int, n: int) -> int {
    if i < n {
        i
    } else {
        n
    }
}

/// Two spaces, the sheet with `!` when there is one, and the cell.
pub open spec fn place_segs(sheet: Seq<char>, cell: Seq<char>) -> Seq<SegView> {
    let sh: Seq<SegView> = if sheet.len() > 0 {
        seq![seg(Style::Sheet, sheet), seg(Style::Plain, seq!['!'])]
    } else {
        seq![]
    };
    seq![seg(Style::Plain, seq![' ', ' '])] + sh + seq![seg(Style::Cell, cell)]
}

/// The layer tag of a Match line: none for `display` unless forced.
pub open spec fn tag_segs(layer: Seq<char>, force_layer_tag: bool) -> Seq<SegView> {
    if layer != layer_name(Layer::Display) || force_layer_tag {
        seq![seg(Style::Tag, seq![' ', '['] + layer + seq![']'])]
    } else {
        seq![]
    }
}

/// The start of a Match line: the place and the 1-based column.
pub open spec fn head_segs(sheet: Seq<char>, cell: Seq<char>, column: nat) -> Seq<SegView> {
    place_segs(sheet, cell) + seq![seg(Style::Plain, seq![':'] + decimal(column) + seq![':', ' '])]
}

/// The text of a Match line with the characters `s..e` (clamped to the
/// text) highlighted.
pub open spec fn highlight_segs(text: Seq<char>, s: int, e: int) -> Seq<SegView> {
    let n = text.len() as int;
    let a = clamp(s, n);
    let b = clamp(e, n);
    let before: Seq<SegView> = if a > 0 {
        seq![seg(Style::Plain, text.subrange(0, a))]
    } else {
        seq![]
    };
    let after: Seq<SegView> = if b < n {
        seq![seg(Style::Plain, text.subrange(b, n))]
    } else {
        seq![]
    };
    before + seq![seg(Style::Match, text.subrange(a, b))] + after
}

/// The line for one hit of a Match event: its own 1-based column and its
/// own range highlighted.
pub open spec fn hit_line(
    sheet: Seq<char>,
    cell: Seq<char>,
    layer: Seq<char>,
    text: Seq<char>,
    sub: SubmatchView,
    force_layer_tag: bool,
) -> Seq<SegView> {
    head_segs(sheet, cell, (sub.start + 1) as nat) + highlight_segs(text, sub.start, sub.end) + tag_segs(
        layer,
        force_layer_tag,
    ) + seq![seg(Style::Plain, seq!['\n'])]
}

/// The lines for the first `k` hits of a Match event.
pub open spec fn hit_lines(
    sheet: Seq<char>,
    cell: Seq<char>,
    layer: Seq<char>,
    text: Seq<char>,
    subs: Seq<SubmatchView>,
    force_layer_tag: bool,
    k: int,
) -> Seq<SegView>
    decreases k,
{
    if k <= 0 {
        seq![]
    } else {
        hit_lines(sheet, cell, layer, text, subs, force_layer_tag, k - 1) + hit_line(
            sheet,
            cell,
            layer,
            text,
            subs[k - 1],
            force_layer_tag,
        )
    }
}

/// The lines of a Match event: one per hit, each with that hit's column
/// and highlight; a Match without submatches (an inverted search) prints
/// one line at column 1 with nothing highlighted.
pub open spec fn match_segs(
    sheet: Seq<char>,
    cell: Seq<char>,
    layer: Seq<char>,
    text: Seq<char>,
    subs: Seq<SubmatchView>,
    force_layer_tag: bool,
) -> Seq<SegView> {
    if subs.len() == 0 {
        let rest: Seq<SegView> = if text.len() > 0 {
            seq![seg(Style::Plain, text)]
        } else {
            seq![]
        };
        head_segs(sheet, cell, 1) + rest + tag_segs(layer, force_layer_tag) + seq![seg(Style::Plain, seq!['\n'])]
    } else {
        hit_lines(sheet, cell, layer, text, subs, force_layer_tag, subs.len() as int)
    }
}

/// The pretty-mode segments of one event.
pub open spec fn event_segs(e: EventView, force_layer_tag: bool) -> Seq<SegView> {
    match e {
        EventView::FileBegin { path } => seq![seg(Style::Path, path.push('\n'))],
        EventView::Match { sheet, cell, layer, text, submatches, .. } => match_segs(
            sheet,
            cell,
            layer,
            text,
            submatches,
            force_layer_tag,
        ),
        EventView::Error { message, .. } => seq![
            seg(Style::Plain, seq![' ', ' ', 'E', 'R', 'R', 'O', 'R', ':', ' '] + message + seq!['\n']),
        ],
        EventView::Context { sheet, cell, text, .. } => place_segs(sheet, cell) + seq![
            seg(Style::Plain, seq![':', ' '] + text + seq![' ']),
            seg(Style::Tag, seq!['[', 'c', 'o', 'n', 't', 'e', 'x', 't', ']']),
            seg(Style::Plain, seq!['\n']),
        ],
        EventView::Separator => seq![seg(Style::Plain, seq![' ', ' ', '-', '-', '\n'])],
        EventView::FileEnd { .. } => seq![],
    }
}

/// The pretty-mode segments of the first `n` events.
pub open spec fn events_segs(events: Seq<EventView>, force_layer_tag: bool, n: int) -> Seq<SegView>
    decreases n,
{
    if n <= 0 {
        seq![]
    } else {
        events_segs(events, force_layer_tag, n - 1) + event_segs(events[n - 1], force_layer_tag)
    }
}

/// The block holds a Match event.
pub open spec fn has_match(events: Seq<EventView>) -> bool {
    exists|k: int| 0 <= k < events.len() && #[trigger] events[k] is Match
}

/// Pretty mode: nothing for a block without a match, else every event's
/// segments in order.
pub open spec fn pretty_output(events: Seq<EventView>, force_layer_tag: bool) -> Seq<SegView> {
    if has_match(events) {
        events_segs(events, force_layer_tag, events.len() as int)
    } else {
        seq![]
    }
}

/// The number of Match events among the first `n`.
pub open spec fn match_count(events: Seq<EventView>, n: int) -> nat
    decreases n,
{
    if n <= 0 {
        0
    } else {
        match_count(events, n - 1) + if events[n - 1] is Match {
            1nat
        } else {
            0nat
        }
    }
}

/// The path of the last FileBegin event among the first `n`.
pub open spec fn last_begin_path(events: Seq<EventView>, n: int) -> Option<Seq<char>>
    decreases n,
{
    if n <= 0 {
        None
    } else {
        match events[n - 1] {
            EventView::FileBegin { path } => Some(path),
            _ => last_begin_path(events, n - 1),
        }
    }
}

/// Count mode: `path:count` for a block with matches.
pub open spec fn count_output(events: Seq<EventView>) -> Seq<SegView> {
    let n = match_count(events, events.len() as int);
    match last_begin_path(events, events.len() as int) {
        Some(path) => if n > 0 {
            seq![seg(Style::Plain, path + seq![':'] + decimal(n) + seq!['\n'])]
        } else {
            seq![]
        },
        None => seq![],
    }
}

/// Files-with-matches mode: the path of a block with matches, when the
/// block opens with its FileBegin.
pub open spec fn files_output(events: Seq<EventView>) -> Seq<SegView> {
    if has_match(events) && events.len() > 0 {
        match events[0] {
            EventView::FileBegin { path } => seq![seg(Style::Plain, path.push('\n'))],
            _ => seq![],
        }
    } else {
        seq![]
    }
}

/// The submatches of a Match event; none for another event.
pub open spec fn event_subs(e: EventView) -> Seq<SubmatchView> {
    match e {
        EventView::Match { submatches, .. } => submatches,
        _ => seq![],
    }
}

/// Every submatch of every Match event starts no later than it ends.
pub open spec fn submatches_ordered(events: Seq<EventView>) -> bool {
    forall|k: int, j: int|
        0 <= k < events.len() && 0 <= j < event_subs(events[k]).len() ==> #[trigger] event_subs(
            events[k],
        )[j].start <= event_subs(events[k])[j].end
}

fn push_seg(out: &mut Vec<Segment>, style: Style, text: String)
    ensures
        seg_views(final(out)@) == seg_views(old(out)@).push(seg(style, text@)),
{
    let ghost before = out@;
    out.push(Segment { style, text });
    assert(seg_views(out@) =~= seg_views(before).push(seg(style, text@)));
}

fn push_place(out: &mut Vec<Segment>, sheet: &String, cell: &String)
    ensures
        seg_views(final(out)@) == seg_views(old(out)@) + place_segs(sheet@, cell@),
{
    let ghost start = seg_views(out@);
    proof {
        reveal_strlit("  ");
        reveal_strlit("!");
        assert("  "@ =~= seq![' ', ' ']);
        assert("!"@ =~= seq!['!']);
    }
    push_seg(out, Style::Plain, "  ".to_owned());
    let ghost s1 = seg_views(out@);
    if sheet.unicode_len() > 0 {
        push_seg(out, Style::Sheet, sheet.clone());
        push_seg(out, Style::Plain, "!".to_owned());
    }
    let ghost s2 = seg_views(out@);
    push_seg(out, Style::Cell, cell.clone());
    proof {
        let sh: Seq<SegView> = if sheet@.len() > 0 {
            seq![seg(Style::Sheet, sheet@), seg(Style::Plain, seq!['!'])]
        } else {
            seq![]
        };
        assert(s1 == start.push(seg(Style::Plain, seq![' ', ' '])));
        assert(s2 =~= s1 + sh);
        assert(seg_views(out@) =~= start + place_segs(sheet@, cell@));
    }
}

fn push_head(out: &mut Vec<Segment>, sheet: &String, cell: &String, column: u128)
    ensures
        seg_views(final(out)@) == seg_views(old(out)@) + head_segs(sheet@, cell@, column as nat),
{
    let ghost start = seg_views(out@);
    push_place(out, sheet, cell);
    let ghost mid = seg_views(out@);
    let mut col = String::new();
    col.push(':');
    push_decimal(&mut col, column);
    col.push(':');
    col.push(' ');
    assert(col@ =~= seq![':'] + decimal(column as nat) + seq![':', ' ']);
    push_seg(out, Style::Plain, col);
    assert(seg_views(out@) =~= start + head_segs(sheet@, cell@, column as nat));
}

fn push_tail(out: &mut Vec<Segment>, layer: &String, force_layer_tag: bool)
    ensures
        seg_views(final(out)@) == seg_views(old(out)@) + tag_segs(layer@, force_layer_tag) + seq![
            seg(Style::Plain, seq!['\n']),
        ],
{
    let ghost start = seg_views(out@);
    proof {
        reveal_strlit("display");
        assert("display"@ =~= layer_name(Layer::Display));
        reveal_strlit("\n");
        assert("\n"@ =~= seq!['\n']);
    }
    let is_display = str_eq(layer.as_str(), "display");
    if !is_display || force_layer_tag {
        let mut tag = String::new();
        tag.push(' ');
        tag.push('[');
        tag.append(layer.as_str());
        tag.push(']');
        assert(tag@ =~= seq![' ', '['] + layer@ + seq![']']);
        push_seg(out, Style::Tag, tag);
    }
    let ghost mid = seg_views(out@);
    assert(mid =~= start + tag_segs(layer@, force_layer_tag));
    push_seg(out, Style::Plain, "\n".to_owned());
    assert(seg_views(out@) =~= start + tag_segs(layer@, force_layer_tag) + seq![seg(Style::Plain, seq!['\n'])]);
}

fn push_highlight(out: &mut Vec<Segment>, text: &String, s: usize, e: usize)
    requires
        s <= e,
    ensures
        seg_views(final(out)@) == seg_views(old(out)@) + highlight_segs(text@, s as int, e as int),
{
    let ghost start = seg_views(out@);
    let t: &str = text.as_str();
    let n = t.unicode_len();
    let a = if s < n {
        s
    } else {
        n
    };
    let b = if e < n {
        e
    } else {
        n
    };
    if a > 0 {
        push_seg(out, Style::Plain, t.substring_char(0, a).to_owned());
    }
    push_seg(out, Style::Match, t.substring_char(a, b).to_owned());
    if b < n {
        push_seg(out, Style::Plain, t.substring_char(b, n).to_owned());
    }
    assert(seg_views(out@) =~= start + highlight_segs(text@, s as int, e as int));
}

fn push_match(
    out: &mut Vec<Segment>,
    sheet: &String,
    cell: &String,
    layer: &String,
    text: &String,
    submatches: &Vec<Submatch>,
    force_layer_tag: bool,
)
    requires
        forall|j: int| 0 <= j < submatches@.len() ==> (#[trigger] submatches@[j]).start <= submatches@[j].end,
    ensures
        seg_views(final(out)@) == seg_views(old(out)@) + match_segs(
            sheet@,
            cell@,
            layer@,
            text@,
            submatch_views(submatches@),
            force_layer_tag,
        ),
{
    let ghost start = seg_views(out@);
    let ghost subs = submatch_views(submatches@);
    if submatches.len() == 0 {
        push_head(out, sheet, cell, 1);
        let ghost h = seg_views(out@);
        if text.unicode_len() > 0 {
            push_seg(out, Style::Plain, text.clone());
        }
        let ghost m = seg_views(out@);
        push_tail(out, layer, force_layer_tag);
        proof {
            let rest: Seq<SegView> = if text@.len() > 0 {
                seq![seg(Style::Plain, text@)]
            } else {
                seq![]
            };
            assert(m =~= h + rest);
            assert(seg_views(out@) =~= start + match_segs(sheet@, cell@, layer@, text@, subs, force_layer_tag));
        }
        return;
    }
    let mut k: usize = 0;
    assert(start + hit_lines(sheet@, cell@, layer@, text@, subs, force_layer_tag, 0) =~= start);
    while k < submatches.len()
        invariant
            k <= submatches@.len(),
            subs == submatch_views(submatches@),
            forall|j: int| 0 <= j < submatches@.len() ==> (#[trigger] submatches@[j]).start <= submatches@[j].end,
            seg_views(out@) == start + hit_lines(sheet@, cell@, layer@, text@, subs, force_layer_tag, k as int),
        decreases submatches@.len() - k,
    {
        let sm = &submatches[k];
        assert(subs[k as int] == sm@);
        let ghost before = seg_views(out@);
        let column: u128 = (sm.start as u128) + 1;
        push_head(out, sheet, cell, column);
        let ghost h = seg_views(out@);
        push_highlight(out, text, sm.start, sm.end);
        let ghost m = seg_views(out@);
        push_tail(out, layer, force_layer_tag);
        proof {
            assert(seg_views(out@) =~= before + hit_line(sheet@, cell@, layer@, text@, subs[k as int], force_layer_tag));
            assert(seg_views(out@) =~= start + hit_lines(sheet@, cell@, layer@, text@, subs, force_layer_tag, k + 1));
        }
        k = k + 1;
    }
}

fn push_event(out: &mut Vec<Segment>, ev: &MatchEvent, force_layer_tag: bool)
    requires
        ev matches MatchEvent::Match { submatches, .. } ==> forall|j: int|
            0 <= j < submatches@.len() ==> (#[trigger] submatches@[j]).start <= submatches@[j].end,
    ensures
        seg_views(final(out)@) == seg_views(old(out)@) + event_segs(ev@, force_layer_tag),
{
    let ghost start = seg_views(out@);
    match ev {
        MatchEvent::FileBegin { path } => {
            let mut t = path.clone();
            t.push('\n');
            push_seg(out, Style::Path, t);
            assert(seg_views(out@) =~= start + event_segs(ev@, force_layer_tag));
        },
        MatchEvent::Match { sheet, cell, layer, text, submatches, .. } => {
            push_match(out, sheet, cell, layer, text, submatches, force_layer_tag);
        },
        MatchEvent::Error { message, .. } => {
            proof {
                reveal_strlit("  ERROR: ");
                assert("  ERROR: "@ =~= seq![' ', ' ', 'E', 'R', 'R', 'O', 'R', ':', ' ']);
            }
            let mut t = "  ERROR: ".to_owned();
            t.append(message.as_str());
            t.push('\n');
            assert(t@ =~= seq![' ', ' ', 'E', 'R', 'R', 'O', 'R', ':', ' '] + message@ + seq!['\n']);
            push_seg(out, Style::Plain, t);
            assert(seg_views(out@) =~= start + event_segs(ev@, force_layer_tag));
        },
        MatchEvent::Context { sheet, cell, text, .. } => {
            proof {
                reveal_strlit(": ");
                reveal_strlit("[context]");
                reveal_strlit("\n");
                assert(": "@ =~= seq![':', ' ']);
                assert("[context]"@ =~= seq!['[', 'c', 'o', 'n', 't', 'e', 'x', 't', ']']);
                assert("\n"@ =~= seq!['\n']);
            }
            push_place(out, sheet, cell);
            let ghost mid = seg_views(out@);
            let mut t = ": ".to_owned();
            t.append(text.as_str());
            t.push(' ');
            assert(t@ =~= seq![':', ' '] + text@ + seq![' ']);
            push_seg(out, Style::Plain, t);
            push_seg(out, Style::Tag, "[context]".to_owned());
            push_seg(out, Style::Plain, "\n".to_owned());
            assert(seg_views(out@) =~= start + event_segs(ev@, force_layer_tag));
        },
        MatchEvent::Separator => {
            proof {
                reveal_strlit("  --\n");
                assert("  --\n"@ =~= seq![' ', ' ', '-', '-', '\n']);
            }
            push_seg(out, Style::Plain, "  --\n".to_owned());
            assert(seg_views(out@) =~= start + event_segs(ev@, force_layer_tag));
        },
        MatchEvent::FileEnd { .. } => {
            assert(seg_views(out@) =~= start + event_segs(ev@, force_layer_tag));
        },
    }
}

fn block_has_match(block: &FileBlock) -> (r: bool)
    ensures
        r == has_match(block@),
{
    let mut k: usize = 0;
    while k < block.events.len()
        invariant
            k <= block.events@.len(),
            forall|j: int| 0 <= j < k ==> !(block@[j] is Match),
        decreases block.events@.len() - k,
    {
        assert(block@[k as int] == block.events@[k as int]@);
        if let MatchEvent::Match { .. } = &block.events[k] {
            assert(block@[k as int] is Match);
            return true;
        }
        k = k + 1;
    }
    false
}

fn print_pretty(block: &FileBlock, force_layer_tag: bool) -> (r: Vec<Segment>)
    requires
        submatches_ordered(block@),
    ensures
        seg_views(r@) == pretty_output(block@, force_layer_tag),
{
    let mut out: Vec<Segment> = Vec::new();
    if !block_has_match(block) {
        assert(seg_views(out@) =~= Seq::<SegView>::empty());
        return out;
    }
    let mut k: usize = 0;
    assert(seg_views(out@) =~= events_segs(block@, force_layer_tag, 0));
    while k < block.events.len()
        invariant
            k <= block.events@.len(),
            submatches_ordered(block@),
            seg_views(out@) == events_segs(block@, force_layer_tag, k as int),
        decreases block.events@.len() - k,
    {
        let ev = &block.events[k];
        assert(block@[k as int] == ev@);
        proof {
            if let MatchEvent::Match { submatches, .. } = ev {
                assert forall|j: int| 0 <= j < submatches@.len() implies (#[trigger] submatches@[j]).start
                    <= submatches@[j].end by {
                    assert(event_subs(block@[k as int])[j] == submatches@[j]@);
                    assert(event_subs(block@[k as int])[j].start <= event_subs(block@[k as int])[j].end);
                }
            }
        }
        push_event(&mut out, ev, force_layer_tag);
        k = k + 1;
    }
    out
}

fn print_count(block: &FileBlock) -> (r: Vec<Segment>)
    ensures
        seg_views(r@) == count_output(block@),
{
    let mut count: u64 = 0;
    let mut path: Option<&String> = None;
    let mut k: usize = 0;
    while k < block.events.len()
        invariant
            k <= block.events@.len(),
            count == match_count(block@, k as int),
            count <= k,
            match path {
                Some(p) => last_begin_path(block@, k as int) == Some(p@),
                None => last_begin_path(block@, k as int) is None,
            },
        decreases block.events@.len() - k,
    {
        assert(block@[k as int] == block.events@[k as int]@);
        match &block.events[k] {
            MatchEvent::FileBegin { path: p } => {
                path = Some(p);
            },
            MatchEvent::Match { .. } => {
                count = count + 1;
            },
            _ => {},
        }
        k = k + 1;
    }
    let mut out: Vec<Segment> = Vec::new();
    if let Some(p) = path {
        if count > 0 {
            let mut t = p.clone();
            t.push(':');
            push_decimal(&mut t, count as u128);
            t.push('\n');
            assert(t@ =~= p@ + seq![':'] + decimal(match_count(block@, block@.len() as int)) + seq!['\n']);
            push_seg(&mut out, Style::Plain, t);
        }
    }
    assert(block.events@.len() == block@.len());
    assert(seg_views(out@) =~= count_output(block@));
    out
}

fn print_files_with_matches(block: &FileBlock) -> (r: Vec<Segment>)
    ensures
        seg_views(r@) == files_output(block@),
{
    let mut out: Vec<Segment> = Vec::new();
    if block_has_match(block) && block.events.len() > 0 {
        assert(block@[0] == block.events@[0]@);
        if let MatchEvent::FileBegin { path } = &block.events[0] {
            let mut t = path.clone();
            t.push('\n');
            push_seg(&mut out, Style::Plain, t);
        }
    }
    assert(seg_views(out@) =~= files_output(block@));
    out
}

/// Whether every submatch of every Match event in the block starts no
/// later than it ends (what `print_block` requires).
pub fn submatches_in_order(block: &FileBlock) -> (r: bool)
    ensures
        r == submatches_ordered(block@),
{
    let mut k: usize = 0;
    while k < block.events.len()
        invariant
            k <= block.events@.len(),
            forall|i: int, j: int|
                0 <= i < k && 0 <= j < event_subs(block@[i]).len() ==> #[trigger] event_subs(block@[i])[j].start
                    <= event_subs(block@[i])[j].end,
        decreases block.events@.len() - k,
    {
        assert(block@[k as int] == block.events@[k as int]@);
        if let MatchEvent::Match { submatches, .. } = &block.events[k] {
            let mut j: usize = 0;
            while j < submatches.len()
                invariant
                    j <= submatches@.len(),
                    k < block.events@.len(),
                    block@.len() == block.events@.len(),
                    block@[k as int] == block.events@[k as int]@,
                    block.events@[k as int] matches MatchEvent::Match { submatches: s, .. } && s == submatches,
                    forall|jj: int| 0 <= jj < j ==> #[trigger] submatches@[jj].start <= submatches@[jj].end,
                decreases submatches@.len() - j,
            {
                if submatches[j].start > submatches[j].end {
                    assert(event_subs(block@[k as int]) == submatch_views(submatches@));
                    assert(event_subs(block@[k as int])[j as int] == submatches@[j as int]@);
                    assert(event_subs(block@[k as int])[j as int].start > event_subs(block@[k as int])[j as int].end);
                    assert(!submatches_ordered(block@));
                    return false;
                }
                j = j + 1;
            }
            assert forall|jj: int| 0 <= jj < event_subs(block@[k as int]).len() implies #[trigger] event_subs(
                block@[k as int],
            )[jj].start <= event_subs(block@[k as int])[jj].end by {
                assert(event_subs(block@[k as int])[jj] == submatches@[jj]@);
            }
        }
        k = k + 1;
    }
    true
}

/// What one file's block prints as in the given mode.
pub open spec fn printed_output(events: Seq<EventView>, mode: OutputMode, force_layer_tag: bool) -> Option<
    Seq<SegView>,
> {
    match mode {
        OutputMode::Pretty => Some(pretty_output(events, force_layer_tag)),
        OutputMode::Json => None,
        OutputMode::CountOnly => Some(count_output(events)),
        OutputMode::FilesOnly => Some(files_output(events)),
    }
}

/// Render one file's events for the output mode: pretty lines, `path:count`,
/// the path alone, or (for JSON) one object per event.
pub fn print_block(block: &FileBlock, mode: OutputMode, force_layer_tag: bool) -> (r: Printed)
    requires
        submatches_ordered(block@),
    ensures
        match printed_output(block@, mode, force_layer_tag) {
            Some(segs) => r matches Printed::Segments(v) && seg_views(v@) == segs,
            None => r is JsonLines,
        },
{
    match mode {
        OutputMode::Pretty => Printed::Segments(print_pretty(block, force_layer_tag)),
        OutputMode::Json => Printed::JsonLines,
        OutputMode::CountOnly => Printed::Segments(print_count(block)),
        OutputMode::FilesOnly => Printed::Segments(print_files_with_matches(block)),
    }
}

} // verus!
