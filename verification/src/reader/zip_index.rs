//! The workbook's sheet list: names in workbook order with the zip path of
//! each sheet's xml, read from `xl/workbook.xml` and its rels. Opening the
//! zip archive and reading entries happens in the application.

use vstd::prelude::*;
use vstd::string::StringSliceAdditionalSpecFns;

use crate::matcher::{char_span, compile_regex, regex_capture_spans, regex_captures_all, regex_compiles};
use crate::support::{str_eq, string_concat};
use crate::{bytes_to_char_range, char_range};

verus! {

/// A `<sheet>` with its name (group 1) before its relationship id (group 2).
pub const SHEET_PATTERN: &'static str = "<sheet[^>]*name=\"([^\"]+)\"[^>]*r:id=\"(rId\\d+)\"";

/// A `<sheet>` with its relationship id (group 1) before its name (group 2).
pub const SHEET_PATTERN_ALT: &'static str = "<sheet[^>]*r:id=\"(rId\\d+)\"[^>]*name=\"([^\"]+)\"";

/// A `<Relationship>` with its id (group 1) and target (group 2).
pub const REL_PATTERN: &'static str = "<Relationship[^>]*Id=\"(rId\\d+)\"[^>]*Target=\"([^\"]+)\"";

#[derive(Debug, Clone)]
pub struct SheetEntry {
    pub name: String,
    /// e.g. "xl/worksheets/sheet1.xml"
    pub xml_path: String,
}

/// A `SheetEntry` as plain values.
pub struct SheetEntryView {
    pub name: Seq<char>,
    pub xml_path: Seq<char>,
}

impl View for SheetEntry {
    type V = SheetEntryView;

    open spec fn view(&self) -> SheetEntryView {
        SheetEntryView { name: self.name@, xml_path: self.xml_path@ }
    }
}

/// The views of a sequence of sheet entries.
pub open spec fn entry_views(v: Seq<SheetEntry>) -> Seq<SheetEntryView> {
    v.map_values(|e: SheetEntry| e@)
}

/// The text of capture group `g` of one match, when the group took part.
pub open spec fn group_text(h: Seq<char>, groups: Seq<Option<(int, int)>>, g: int) -> Option<Seq<char>> {
    if 0 <= g < groups.len() {
        match groups[g] {
            Some(sp) => Some(char_range(h, sp.0, sp.1).text),
            None => None,
        }
    } else {
        None
    }
}

/// The (group `a`, group `b`) texts of the first `n` matches in which both
/// groups took part.
pub open spec fn group_pairs(h: Seq<char>, caps: Seq<Seq<Option<(int, int)>>>, a: int, b: int, n: int) -> Seq<
    (Seq<char>, Seq<char>),
>
    decreases n,
{
    if n <= 0 {
        seq![]
    } else {
        let prev = group_pairs(h, caps, a, b, n - 1);
        match (group_text(h, caps[n - 1], a), group_text(h, caps[n - 1], b)) {
            (Some(x), Some(y)) => prev.push((x, y)),
            _ => prev,
        }
    }
}

/// The (group `a`, group `b`) pairs of every match of `pattern` in `h`;
/// none when the pattern does not compile.
pub open spec fn pattern_pairs(pattern: Seq<char>, h: Seq<char>, a: int, b: int) -> Seq<(Seq<char>, Seq<char>)> {
    if regex_compiles(pattern, false) {
        let caps = regex_capture_spans(pattern, false, h);
        group_pairs(h, caps, a, b, caps.len() as int)
    } else {
        seq![]
    }
}

/// The (name, relationship id) of each sheet of `workbook.xml`, in order:
/// from the name-first form, else from the id-first form.
pub open spec fn sheet_rids(workbook: Seq<char>) -> Seq<(Seq<char>, Seq<char>)> {
    let primary = pattern_pairs(SHEET_PATTERN@, workbook, 1, 2);
    if primary.len() > 0 {
        primary
    } else {
        pattern_pairs(SHEET_PATTERN_ALT@, workbook, 2, 1)
    }
}

/// The target of relationship `rid`: the last relationship with that id
/// among the first `n`.
pub open spec fn target_of(rels: Seq<(Seq<char>, Seq<char>)>, rid: Seq<char>, n: int) -> Option<Seq<char>>
    decreases n,
{
    if n <= 0 {
        None
    } else if rels[n - 1].0 == rid {
        Some(rels[n - 1].1)
    } else {
        target_of(rels, rid, n - 1)
    }
}

/// `s` without its leading `/` characters.
pub open spec fn trim_slashes(s: Seq<char>) -> Seq<char>
    decreases s.len(),
{
    if s.len() > 0 && s[0] == '/' {
        trim_slashes(s.drop_first())
    } else {
        s
    }
}

/// The sheets among the first `n` (name, id) pairs whose relationship has a
/// target, with `xl/` + the target as the xml path.
pub open spec fn entries_of(rids: Seq<(Seq<char>, Seq<char>)>, rels: Seq<(Seq<char>, Seq<char>)>, n: int) -> Seq<
    SheetEntryView,
>
    decreases n,
{
    if n <= 0 {
        seq![]
    } else {
        let prev = entries_of(rids, rels, n - 1);
        match target_of(rels, rids[n - 1].1, rels.len() as int) {
            Some(t) => prev.push(
                SheetEntryView { name: rids[n - 1].0, xml_path: seq!['x', 'l', '/'] + trim_slashes(t) },
            ),
            None => prev,
        }
    }
}

/// The sheet list of a workbook, from `xl/workbook.xml` and the text of
/// `xl/_rels/workbook.xml.rels` (empty when missing).
pub open spec fn sheet_list(workbook: Seq<char>, rels: Seq<char>) -> Seq<SheetEntryView> {
    let rids = sheet_rids(workbook);
    entries_of(rids, pattern_pairs(REL_PATTERN@, rels, 1, 2), rids.len() as int)
}

/// The text of an optional capture range.
fn capture_text(h: &str, g: Option<(usize, usize)>) -> (r: Option<String>)
    requires
        g matches Some(sp) ==> char_span(h.spec_bytes(), sp.0 as int, sp.1 as int),
    ensures
        match g {
            Some(sp) => r matches Some(t) && t@ == char_range(h@, sp.0 as int, sp.1 as int).text,
            None => r is None,
        },
{
    match g {
        Some((s, e)) => Some(bytes_to_char_range(h, s, e).matched.text),
        None => None,
    }
}

/// The pair views of a vector of string pairs.
pub open spec fn pair_views(v: Seq<(String, String)>) -> Seq<(Seq<char>, Seq<char>)> {
    v.map_values(|p: (String, String)| (p.0@, p.1@))
}

/// The (group `a`, group `b`) pairs of every match of `pattern` in `h`.
fn collect_pairs(pattern: &str, h: &str, a: usize, b: usize) -> (r: Vec<(String, String)>)
    ensures
        pair_views(r@) == pattern_pairs(pattern@, h@, a as int, b as int),
{
    let mut out: Vec<(String, String)> = Vec::new();
    let re = match compile_regex(pattern, false) {
        Ok(re) => re,
        Err(_) => {
            assert(pair_views(out@) =~= Seq::<(Seq<char>, Seq<char>)>::empty());
            return out;
        },
    };
    let caps = regex_captures_all(&re, h);
    let ghost spans = regex_capture_spans(pattern@, false, h@);
    let mut k: usize = 0;
    while k < caps.len()
        invariant
            k <= caps@.len(),
            caps@.len() == spans.len(),
            spans == regex_capture_spans(pattern@, false, h@),
            regex_compiles(pattern@, false),
            forall|i: int|
                #![trigger caps@[i]]
                0 <= i < caps@.len() ==> {
                    let groups = spans[i];
                    &&& caps@[i]@.len() == groups.len()
                    &&& forall|g: int|
                        0 <= g < groups.len() ==> match #[trigger] groups[g] {
                            None => caps@[i]@[g] is None,
                            Some((s, e)) => caps@[i]@[g] matches Some(p) && p.0 == s && p.1 == e
                                && char_span(h.spec_bytes(), s, e),
                        }
                },
            pair_views(out@) == group_pairs(h@, spans, a as int, b as int, k as int),
        decreases caps@.len() - k,
    {
        let groups = &caps[k];
        let ghost gs = spans[k as int];
        assert(groups@.len() == gs.len());
        let ta = if a < groups.len() {
            proof {
                if let Some(sp) = gs[a as int] {
                    assert(char_span(h.spec_bytes(), sp.0, sp.1));
                }
            }
            capture_text(h, groups[a])
        } else {
            None
        };
        let tb = if b < groups.len() {
            proof {
                if let Some(sp) = gs[b as int] {
                    assert(char_span(h.spec_bytes(), sp.0, sp.1));
                }
            }
            capture_text(h, groups[b])
        } else {
            None
        };
        proof {
            if a < groups@.len() {
                assert(gs[a as int] is Some <==> groups@[a as int] is Some);
            }
            if b < groups@.len() {
                assert(gs[b as int] is Some <==> groups@[b as int] is Some);
            }
        }
        assert(ta.is_some() == group_text(h@, gs, a as int).is_some());
        assert(ta matches Some(t) ==> group_text(h@, gs, a as int) == Some(t@));
        assert(tb matches Some(t) ==> group_text(h@, gs, b as int) == Some(t@));
        assert(tb.is_some() == group_text(h@, gs, b as int).is_some());
        match (ta, tb) {
            (Some(x), Some(y)) => {
                let ghost before = out@;
                out.push((x, y));
                assert(pair_views(out@) =~= pair_views(before).push((x@, y@)));
            },
            _ => {},
        }
        k = k + 1;
    }
    out
}

/// The target of relationship `rid` in `rels`: the last one with that id.
fn find_target<'a>(rels: &'a Vec<(String, String)>, rid: &String) -> (r: Option<&'a String>)
    ensures
        match target_of(pair_views(rels@), rid@, rels@.len() as int) {
            Some(t) => r matches Some(s) && s@ == t,
            None => r is None,
        },
{
    let ghost pv = pair_views(rels@);
    let mut k = rels.len();
    while k > 0
        invariant
            k <= rels@.len(),
            pv == pair_views(rels@),
            target_of(pv, rid@, rels@.len() as int) == target_of(pv, rid@, k as int),
        decreases k,
    {
        assert(pv[k - 1] == (rels@[k - 1].0@, rels@[k - 1].1@));
        if str_eq(rels[k - 1].0.as_str(), rid.as_str()) {
            return Some(&rels[k - 1].1);
        }
        k = k - 1;
    }
    None
}

/// `s` without its leading `/` characters.
fn trim_leading_slashes(s: &str) -> (r: String)
    ensures
        r@ == trim_slashes(s@),
{
    let cs = crate::support::chars_of(s);
    let mut k: usize = 0;
    assert(cs@.subrange(0, cs@.len() as int) =~= cs@);
    while k < cs.len() && cs[k] == '/'
        invariant
            k <= cs@.len(),
            cs@ == s@,
            trim_slashes(s@) == trim_slashes(cs@.subrange(k as int, cs@.len() as int)),
        decreases cs@.len() - k,
    {
        assert(cs@.subrange(k as int, cs@.len() as int).drop_first() =~= cs@.subrange(k + 1, cs@.len() as int));
        k = k + 1;
    }
    let mut out = String::new();
    let mut j = k;
    while j < cs.len()
        invariant
            k <= j <= cs@.len(),
            out@ == cs@.subrange(k as int, j as int),
        decreases cs@.len() - j,
    {
        out.push(cs[j]);
        assert(out@ =~= cs@.subrange(k as int, j + 1));
        j = j + 1;
    }
    assert(cs@.subrange(k as int, cs@.len() as int) =~= out@);
    out
}

/// The workbook's sheets in workbook order, each with the zip path of its
/// xml, from the text of `xl/workbook.xml` and of
/// `xl/_rels/workbook.xml.rels` (empty when the archive has none). Sheets
/// whose relationship has no target are left out.
pub fn parse_sheets(workbook: &str, rels: &str) -> (r: Vec<SheetEntry>)
    ensures
        entry_views(r@) == sheet_list(workbook@, rels@),
{
    let mut rids = collect_pairs(SHEET_PATTERN, workbook, 1, 2);
    if rids.len() == 0 {
        rids = collect_pairs(SHEET_PATTERN_ALT, workbook, 2, 1);
    }
    let ghost rv = pair_views(rids@);
    assert(rv == sheet_rids(workbook@));
    let targets = collect_pairs(REL_PATTERN, rels, 1, 2);
    let ghost tv = pair_views(targets@);
    let mut out: Vec<SheetEntry> = Vec::new();
    let mut k: usize = 0;
    while k < rids.len()
        invariant
            k <= rids@.len(),
            rv == pair_views(rids@),
            tv == pair_views(targets@),
            tv == pattern_pairs(REL_PATTERN@, rels@, 1, 2),
            entry_views(out@) == entries_of(rv, tv, k as int),
        decreases rids@.len() - k,
    {
        assert(rv[k as int] == (rids@[k as int].0@, rids@[k as int].1@));
        match find_target(&targets, &rids[k].1) {
            Some(t) => {
                proof {
                    reveal_strlit("xl/");
                    assert("xl/"@ =~= seq!['x', 'l', '/']);
                }
                let trimmed = trim_leading_slashes(t.as_str());
                let path = string_concat("xl/", trimmed.as_str());
                let ghost before = out@;
                out.push(SheetEntry { name: rids[k].0.clone(), xml_path: path });
                assert(entry_views(out@) =~= entries_of(rv, tv, k + 1));
            },
            None => {},
        }
        k = k + 1;
    }
    out
}

} // verus!
