//! Hidden-row / hidden-column detection from the sheet xml's
//! `<row r="N" hidden="1">` and `<col min=".." max=".." hidden="1">` markers.

use vstd::prelude::*;
use vstd::string::StringSliceAdditionalSpecFns;
use std::collections::HashSet;

use crate::matcher::{compile_regex, regex_capture_spans, regex_captures_all, CompiledRegex};
use crate::support::{parse_u32, u32_text};
use crate::{bytes_to_char_range, char_range};

verus! {

/// A `<row>` element with an `r` and `hidden="1"`; group 1 is the row number.
pub const HIDDEN_ROW_PATTERN: &'static str = "<row[^>]*r=\"(\\d+)\"[^>]*hidden=\"1\"";

/// A `<col>` element with `min`, `max` and `hidden="1"`; groups 1 and 2 are
/// the column bounds.
pub const HIDDEN_COL_PATTERN: &'static str = "<col[^>]*min=\"(\\d+)\"[^>]*max=\"(\\d+)\"[^>]*hidden=\"1\"";

/// The number in capture group `g` of a match, when the group took part
/// and its text parses as a `u32`.
pub open spec fn group_u32(xml: Seq<char>, groups: Seq<Option<(int, int)>>, g: int) -> Option<u32> {
    if 0 <= g < groups.len() {
        match groups[g] {
            Some(sp) => u32_text(char_range(xml, sp.0, sp.1).text),
            None => None,
        }
    } else {
        None
    }
}

/// `n - 1`, saturating at 0: a 1-based index made 0-based.
pub open spec fn zero_based(n: int) -> int {
    if n <= 0 {
        0
    } else {
        n - 1
    }
}

/// The 0-based rows that some hidden-row match names.
pub open spec fn hidden_rows_of(xml: Seq<char>, caps: Seq<Seq<Option<(int, int)>>>, n: int) -> Set<u32> {
    Set::new(
        |r: u32|
            exists|k: int|
                0 <= k < n && #[trigger] group_u32(xml, caps[k], 1) is Some && r == zero_based(
                    group_u32(xml, caps[k], 1).unwrap() as int,
                ),
    )
}

/// The first column of hidden-column match `groups`: its `min`, else 1.
pub open spec fn col_lo(xml: Seq<char>, groups: Seq<Option<(int, int)>>) -> int {
    match group_u32(xml, groups, 1) {
        Some(v) => v as int,
        None => 1,
    }
}

/// The last column of hidden-column match `groups`: its `max`, else its
/// first column.
pub open spec fn col_hi(xml: Seq<char>, groups: Seq<Option<(int, int)>>) -> int {
    match group_u32(xml, groups, 2) {
        Some(v) => v as int,
        None => col_lo(xml, groups),
    }
}

/// 0-based column `c` is the image of a 1-based column in `lo..=hi`.
pub open spec fn covers(lo: int, hi: int, c: u32) -> bool {
    exists|w: int| lo <= w <= hi && #[trigger] zero_based(w) == c
}

/// The 0-based columns that some hidden-column match covers.
pub open spec fn hidden_cols_of(xml: Seq<char>, caps: Seq<Seq<Option<(int, int)>>>, n: int) -> Set<u32> {
    Set::new(
        |c: u32| exists|k: int| 0 <= k < n && #[trigger] covers(col_lo(xml, caps[k]), col_hi(xml, caps[k]), c),
    )
}

/// The text of an optional capture range of `h`.
fn group_text(h: &str, g: Option<(usize, usize)>) -> (r: Option<String>)
    requires
        g matches Some(sp) ==> crate::matcher::char_span(h.spec_bytes(), sp.0 as int, sp.1 as int),
    ensures
        match g {
            Some(sp) => r matches Some(t) && t@ == char_range(h@, sp.0 as int, sp.1 as int).text,
            None => r is None,
        },
{
    match g {
        Some((s, e)) => Some(bytes_to_char_range(h, s, e).matched.text),
        None => None,
    }
}

/// The `u32` in group `g` of one match.
fn group_number(h: &str, groups: &Vec<Option<(usize, usize)>>, g: usize, Ghost(spans): Ghost<Seq<Option<(int, int)>>>) -> (r: Option<u32>)
    requires
        groups@.len() == spans.len(),
        forall|j: int|
            0 <= j < spans.len() ==> match #[trigger] spans[j] {
                None => groups@[j] is None,
                Some((s, e)) => groups@[j] matches Some(p) && p.0 == s && p.1 == e && crate::matcher::char_span(
                    h.spec_bytes(),
                    s,
                    e,
                ),
            },
    ensures
        r == group_u32(h@, spans, g as int),
{
    if g >= groups.len() {
        return None;
    }
    let ghost sp = spans[g as int];
    proof {
        match sp {
            Some(p) => {
                assert(groups@[g as int] matches Some(q) && q.0 == p.0 && q.1 == p.1);
                assert(crate::matcher::char_span(h.spec_bytes(), p.0, p.1));
            },
            None => {
                assert(groups@[g as int] is None);
            },
        }
    }
    match group_text(h, groups[g]) {
        Some(t) => {
            assert(sp is Some);
            parse_u32(t.as_str())
        },
        None => None,
    }
}

/// Add the 0-based images of the 1-based columns `lo..=hi` to `w`.
fn insert_cols(w: &mut HashSet<u32>, lo: u32, hi: u32)
    ensures
        forall|c: u32| #[trigger] final(w)@.contains(c) <==> (old(w)@.contains(c) || covers(lo as int, hi as int, c)),
{
    broadcast use vstd::std_specs::hash::group_hash_axioms;

    if lo > hi {
        return;
    }
    let mut v = lo;
    loop
        invariant
            lo <= v <= hi,
            forall|c: u32| #[trigger] w@.contains(c) <==> (old(w)@.contains(c) || covers(lo as int, v - 1, c)),
        decreases hi - v,
    {
        let z: u32 = if v == 0 {
            0
        } else {
            v - 1
        };
        w.insert(z);
        proof {
            assert(zero_based(v as int) == z);
            assert forall|c: u32| #[trigger] w@.contains(c) <==> (old(w)@.contains(c) || covers(lo as int, v as int, c)) by {
                if covers(lo as int, v as int, c) {
                    let x = choose|x: int| lo <= x <= v && #[trigger] zero_based(x) == c;
                    if x < v {
                        assert(covers(lo as int, v - 1, c));
                    }
                }
                if covers(lo as int, v - 1, c) {
                    let x = choose|x: int| lo <= x <= v - 1 && #[trigger] zero_based(x) == c;
                    assert(covers(lo as int, v as int, c));
                }
            }
        }
        if v == hi {
            return;
        }
        v = v + 1;
    }
}

/// The hidden rows and columns (both 0-indexed) that the sheet xml marks,
/// and nothing when there is no sheet xml. Detection is best-effort: the
/// worst case is including a row/col that should be hidden, which keeps
/// matches rather than losing them.
pub fn detect(xml: Option<&str>) -> (r: (HashSet<u32>, HashSet<u32>))
    ensures
        match xml {
            None => r.0@.is_empty() && r.1@.is_empty(),
            Some(x) => {
                let rows = regex_capture_spans(HIDDEN_ROW_PATTERN@, false, x@);
                let cols = regex_capture_spans(HIDDEN_COL_PATTERN@, false, x@);
                &&& r.0@ == if crate::matcher::regex_compiles(HIDDEN_ROW_PATTERN@, false) {
                    hidden_rows_of(x@, rows, rows.len() as int)
                } else {
                    Set::<u32>::empty()
                }
                &&& r.1@ == if crate::matcher::regex_compiles(HIDDEN_COL_PATTERN@, false) {
                    hidden_cols_of(x@, cols, cols.len() as int)
                } else {
                    Set::<u32>::empty()
                }
            },
        },
{
    broadcast use vstd::std_specs::hash::group_hash_axioms;

    let mut hidden_rows: HashSet<u32> = HashSet::new();
    let mut hidden_cols: HashSet<u32> = HashSet::new();
    let x = match xml {
        Some(x) => x,
        None => {
            return (hidden_rows, hidden_cols);
        },
    };
    match compile_regex(HIDDEN_ROW_PATTERN, false) {
        Ok(re_row) => {
            let caps = regex_captures_all(&re_row, x);
            let ghost spans = regex_capture_spans(HIDDEN_ROW_PATTERN@, false, x@);
            let mut k: usize = 0;
            while k < caps.len()
                invariant
                    k <= caps@.len(),
                    caps@.len() == spans.len(),
                    re_row.source() == HIDDEN_ROW_PATTERN@,
                    !re_row.ignores_case(),
                    spans == regex_capture_spans(HIDDEN_ROW_PATTERN@, false, x@),
                    forall|i: int|
                        #![trigger caps@[i]]
                        0 <= i < caps@.len() ==> {
                            let groups = spans[i];
                            &&& caps@[i]@.len() == groups.len()
                            &&& forall|g: int|
                                0 <= g < groups.len() ==> match #[trigger] groups[g] {
                                    None => caps@[i]@[g] is None,
                                    Some((s, e)) => caps@[i]@[g] matches Some(p) && p.0 == s && p.1 == e
                                        && crate::matcher::char_span(x.spec_bytes(), s, e),
                                }
                        },
                    hidden_rows@ == hidden_rows_of(x@, spans, k as int),
                decreases caps@.len() - k,
            {
                let ghost groups = spans[k as int];
                assert(caps@[k as int]@.len() == groups.len());
                let n = group_number(x, &caps[k], 1, Ghost(groups));
                let ghost before = hidden_rows@;
                if let Some(n) = n {
                    let z: u32 = if n == 0 {
                        0
                    } else {
                        n - 1
                    };
                    hidden_rows.insert(z);
                }
                proof {
                    assert(hidden_rows@ =~= hidden_rows_of(x@, spans, k + 1)) by {
                        assert forall|r: u32| hidden_rows@.contains(r) implies hidden_rows_of(x@, spans, k + 1).contains(r) by {
                            if before.contains(r) {
                                let j = choose|j: int|
                                    0 <= j < k && #[trigger] group_u32(x@, spans[j], 1) is Some && r == zero_based(
                                        group_u32(x@, spans[j], 1).unwrap() as int,
                                    );
                            } else {
                                assert(group_u32(x@, spans[k as int], 1) is Some);
                            }
                        }
                        assert forall|r: u32| hidden_rows_of(x@, spans, k + 1).contains(r) implies hidden_rows@.contains(r) by {
                            let j = choose|j: int|
                                0 <= j < k + 1 && #[trigger] group_u32(x@, spans[j], 1) is Some && r == zero_based(
                                    group_u32(x@, spans[j], 1).unwrap() as int,
                                );
                            if j < k {
                                assert(before.contains(r));
                            }
                        }
                    }
                }
                k = k + 1;
            }
        },
        Err(_) => {},
    }
    match compile_regex(HIDDEN_COL_PATTERN, false) {
        Ok(re_col) => {
            let caps = regex_captures_all(&re_col, x);
            let ghost spans = regex_capture_spans(HIDDEN_COL_PATTERN@, false, x@);
            let mut k: usize = 0;
            while k < caps.len()
                invariant
                    k <= caps@.len(),
                    caps@.len() == spans.len(),
                    spans == regex_capture_spans(HIDDEN_COL_PATTERN@, false, x@),
                    forall|i: int|
                        #![trigger caps@[i]]
                        0 <= i < caps@.len() ==> {
                            let groups = spans[i];
                            &&& caps@[i]@.len() == groups.len()
                            &&& forall|g: int|
                                0 <= g < groups.len() ==> match #[trigger] groups[g] {
                                    None => caps@[i]@[g] is None,
                                    Some((s, e)) => caps@[i]@[g] matches Some(p) && p.0 == s && p.1 == e
                                        && crate::matcher::char_span(x.spec_bytes(), s, e),
                                }
                        },
                    hidden_cols@ == hidden_cols_of(x@, spans, k as int),
                decreases caps@.len() - k,
            {
                let ghost groups = spans[k as int];
                assert(caps@[k as int]@.len() == groups.len());
                let lo: u32 = match group_number(x, &caps[k], 1, Ghost(groups)) {
                    Some(v) => v,
                    None => 1,
                };
                let hi: u32 = match group_number(x, &caps[k], 2, Ghost(groups)) {
                    Some(v) => v,
                    None => lo,
                };
                assert(lo == col_lo(x@, groups) && hi == col_hi(x@, groups));
                let ghost before = hidden_cols@;
                insert_cols(&mut hidden_cols, lo, hi);
                proof {
                    assert(hidden_cols@ =~= hidden_cols_of(x@, spans, k + 1)) by {
                        assert forall|c: u32| hidden_cols@.contains(c) implies hidden_cols_of(x@, spans, k + 1).contains(c) by {
                            if before.contains(c) {
                                let j = choose|j: int| 0 <= j < k && #[trigger] covers(col_lo(x@, spans[j]), col_hi(x@, spans[j]), c);
                            } else {
                                assert(covers(col_lo(x@, spans[k as int]), col_hi(x@, spans[k as int]), c));
                            }
                        }
                        assert forall|c: u32| hidden_cols_of(x@, spans, k + 1).contains(c) implies hidden_cols@.contains(c) by {
                            let j = choose|j: int| 0 <= j < k + 1 && #[trigger] covers(col_lo(x@, spans[j]), col_hi(x@, spans[j]), c);
                            if j < k {
                                assert(before.contains(c));
                            }
                        }
                    }
                }
                k = k + 1;
            }
        },
        Err(_) => {},
    }
    (hidden_rows, hidden_cols)
}

/// Every hidden-row match counts, wherever it stands among the others:
/// for each match of the hidden-row pattern whose row number `N >= 1`
/// parses, the 0-based row `N - 1` is in the set; and the set holds no
/// row that no match names.
pub proof fn lemma_every_hidden_row_counts(xml: Seq<char>, caps: Seq<Seq<Option<(int, int)>>>)
    ensures
        forall|k: int|
            0 <= k < caps.len() && (#[trigger] group_u32(xml, caps[k], 1)) is Some && group_u32(
                xml,
                caps[k],
                1,
            ).unwrap() >= 1 ==> hidden_rows_of(xml, caps, caps.len() as int).contains(
                (group_u32(xml, caps[k], 1).unwrap() - 1) as u32,
            ),
        forall|r: u32|
            #[trigger] hidden_rows_of(xml, caps, caps.len() as int).contains(r) ==> exists|k: int|
                0 <= k < caps.len() && (#[trigger] group_u32(xml, caps[k], 1) matches Some(nn) && (r == nn - 1 || (nn
                    == 0 && r == 0))),
{
    assert forall|k: int|
        0 <= k < caps.len() && (#[trigger] group_u32(xml, caps[k], 1)) is Some && group_u32(
            xml,
            caps[k],
            1,
        ).unwrap() >= 1 implies hidden_rows_of(xml, caps, caps.len() as int).contains(
        (group_u32(xml, caps[k], 1).unwrap() - 1) as u32,
    ) by {
        let nn = group_u32(xml, caps[k], 1).unwrap();
        assert(zero_based(nn as int) == nn - 1);
    }
}

/// Every hidden-column match counts, wherever it stands among the others:
/// each 0-based column `c` whose 1-based number `c + 1` lies in a match's
/// `min..=max` range is in the set.
pub proof fn lemma_every_hidden_col_counts(xml: Seq<char>, caps: Seq<Seq<Option<(int, int)>>>)
    ensures
        forall|k: int, c: u32|
            #![trigger caps[k], hidden_cols_of(xml, caps, caps.len() as int).contains(c)]
            0 <= k < caps.len() && col_lo(xml, caps[k]) <= c + 1 <= col_hi(xml, caps[k])
                ==> hidden_cols_of(xml, caps, caps.len() as int).contains(c),
{
    assert forall|k: int, c: u32|
        #![trigger caps[k], hidden_cols_of(xml, caps, caps.len() as int).contains(c)]
        0 <= k < caps.len() && col_lo(xml, caps[k]) <= c + 1 <= col_hi(xml, caps[k])
            implies hidden_cols_of(xml, caps, caps.len() as int).contains(c) by {
        assert(zero_based(c + 1) == c);
        assert(covers(col_lo(xml, caps[k]), col_hi(xml, caps[k]), c));
    }
}

} // verus!
