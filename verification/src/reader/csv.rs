//! CSV / TSV reader: turns a file's bytes into `CellRecord`s of the same
//! shape the xlsx reader produces. The delimiter follows the extension
//! (`.csv` comma, `.tsv` tab). Text is UTF-8 by default with BOM detection
//! for UTF-8, UTF-16LE and UTF-16BE; an explicit encoding label supersedes
//! the BOM hint. Fields follow RFC 4180 quoting, rows may differ in length.

use vstd::prelude::*;

use crate::cell::{a1, decimal, push_decimal, to_a1};
use crate::config::Layer;
use crate::error::SearchError;
use crate::reader::{CellRecord, CellView};
use crate::support::string_concat;

verus! {

/// Whether `encoding_rs::Encoding::for_label` knows `label` (after ASCII
/// lowercasing and trimming whitespace, per the WHATWG Encoding Standard).
pub uninterp spec fn encoding_label_known(label: Seq<char>) -> bool;

/// The text that the encoding named by `label` decodes `bytes` to with
/// `Encoding::decode` (BOM sniffing, malformed sequences replaced by
/// U+FFFD).
pub uninterp spec fn decode_by_label(label: Seq<char>, bytes: Seq<u8>) -> Seq<char>;

/// The records that `csv::ReaderBuilder` (no headers, flexible, quoting,
/// the given delimiter) reads from `text`: each the sequence of its fields,
/// up to and including the first error, given by its message.
pub uninterp spec fn csv_records_of(text: Seq<char>, delimiter: u8) -> Seq<Result<Seq<Seq<char>>, Seq<char>>>;

/// `encoding_rs::Encoding::for_label(label)` and, when it names an
/// encoding, that encoding's `decode(bytes)` as an owned string. The output
/// of a decode is at most three times the input, so inputs up to a quarter
/// of the address space cannot overflow its size calculation.
#[verifier::external_body]
fn decode_with_label(label: &str, bytes: &[u8]) -> (r: Option<String>)
    requires
        bytes@.len() <= usize::MAX / 4,
    ensures
        r is Some <==> encoding_label_known(label@),
        r matches Some(s) ==> s@ == decode_by_label(label@, bytes@),
{
    match encoding_rs::Encoding::for_label(label.as_bytes()) {
        Some(enc) => Some(enc.decode(bytes).0.into_owned()),
        None => None,
    }
}

/// Whether `label` names an encoding (WHATWG labels, as `-E` takes them).
pub fn encoding_is_known(label: &str) -> (r: bool)
    ensures
        r == encoding_label_known(label@),
{
    let empty: Vec<u8> = Vec::new();
    decode_with_label(label, empty.as_slice()).is_some()
}

/// The records of `csv::Reader::records` over `text`, read with no header
/// row, flexible row lengths, quoting and the given delimiter; each record
/// as its fields, and the first error as its message, after which reading
/// stops.
#[verifier::external_body]
fn csv_records(text: &str, delimiter: u8) -> (r: Vec<Result<Vec<String>, String>>)
    ensures
        record_views(r@) == csv_records_of(text@, delimiter),
{
    let mut rdr = ::csv::ReaderBuilder::new().has_headers(false).flexible(true).delimiter(
        delimiter,
    ).quoting(true).from_reader(text.as_bytes());
    let mut out = Vec::new();
    for rec in rdr.records() {
        match rec {
            Ok(rec) => out.push(Ok(rec.iter().map(|f| f.to_owned()).collect())),
            Err(e) => {
                out.push(Err(e.to_string()));
                break;
            },
        }
    }
    out
}

/// The views of the records a csv read gives.
pub open spec fn record_views(v: Seq<Result<Vec<String>, String>>) -> Seq<Result<Seq<Seq<char>>, Seq<char>>> {
    v.map_values(
        |r: Result<Vec<String>, String>|
            match r {
                Ok(fields) => Ok(fields@.map_values(|f: String| f@)),
                Err(m) => Err(m@),
            },
    )
}

/// The encoding a byte-order mark announces, and where the text after the
/// mark starts (the UTF-16 marks are left for the decoder to sniff).
pub open spec fn bom_hint(b: Seq<u8>) -> (Option<Seq<char>>, int) {
    if b.len() >= 3 && b[0] == 0xEF && b[1] == 0xBB && b[2] == 0xBF {
        (Some(seq!['u', 't', 'f', '-', '8']), 3)
    } else if b.len() >= 2 && b[0] == 0xFF && b[1] == 0xFE {
        (Some(seq!['u', 't', 'f', '-', '1', '6', 'l', 'e']), 0)
    } else if b.len() >= 2 && b[0] == 0xFE && b[1] == 0xFF {
        (Some(seq!['u', 't', 'f', '-', '1', '6', 'b', 'e']), 0)
    } else {
        (None, 0)
    }
}

/// The encoding label used: the explicit one, else the BOM's, else UTF-8.
pub open spec fn chosen_label(b: Seq<u8>, explicit: Option<Seq<char>>) -> Seq<char> {
    match explicit {
        Some(l) => l,
        None => match bom_hint(b).0 {
            Some(l) => l,
            None => seq!['u', 't', 'f', '-', '8'],
        },
    }
}

/// ASCII lowercase of one character.
pub open spec fn ascii_lower(c: char) -> char {
    if 'A' <= c <= 'Z' {
        ((c as u32) + 32) as char
    } else {
        c
    }
}

/// `str::eq_ignore_ascii_case`.
pub open spec fn eq_ignore_case(a: Seq<char>, b: Seq<char>) -> bool {
    a.len() == b.len() && forall|i: int| 0 <= i < a.len() ==> ascii_lower(#[trigger] a[i]) == ascii_lower(b[i])
}

fn lower(c: char) -> (r: char)
    ensures
        r == ascii_lower(c),
{
    if 'A' <= c && c <= 'Z' {
        let v = (c as u32) + 32;
        assert(v <= 0x7f);
        (v as u8) as char
    } else {
        c
    }
}

/// `str::eq_ignore_ascii_case`.
fn eq_ignore_ascii_case(a: &str, b: &str) -> (r: bool)
    ensures
        r == eq_ignore_case(a@, b@),
{
    let x = crate::support::chars_of(a);
    let y = crate::support::chars_of(b);
    if x.len() != y.len() {
        return false;
    }
    let mut i: usize = 0;
    while i < x.len()
        invariant
            x@ == a@,
            y@ == b@,
            x.len() == y.len(),
            i <= x.len(),
            forall|j: int| 0 <= j < i ==> ascii_lower(#[trigger] a@[j]) == ascii_lower(b@[j]),
        decreases x.len() - i,
    {
        if lower(x[i]) != lower(y[i]) {
            return false;
        }
        i = i + 1;
    }
    true
}

/// The delimiter for a file extension, or the message of the error.
pub open spec fn delimiter_for(ext: Option<Seq<char>>) -> Result<u8, Seq<char>> {
    match ext {
        Some(e) => if eq_ignore_case(e, seq!['c', 's', 'v']) {
            Ok(44u8)
        } else if eq_ignore_case(e, seq!['t', 's', 'v']) {
            Ok(9u8)
        } else {
            Err(
                seq!['i', 'n', 't', 'e', 'r', 'n', 'a', 'l', ':', ' ', 'u', 'n', 'e', 'x', 'p', 'e', 'c', 't',
                    'e', 'd', ' ', 'e', 'x', 't', 'e', 'n', 's', 'i', 'o', 'n', ' ', '\''] + e + seq!['\'', ' ',
                    'r', 'o', 'u', 't', 'e', 'd', ' ', 't', 'o', ' ', 'c', 's', 'v', ' ', 'r', 'e', 'a', 'd', 'e',
                    'r'],
            )
        },
        None => Err(
            seq!['f', 'i', 'l', 'e', ' ', 'h', 'a', 's', ' ', 'n', 'o', ' ', 'e', 'x', 't', 'e', 'n', 's', 'i',
                'o', 'n'],
        ),
    }
}

/// The cells of the first `n` fields of record `row`: one Display cell per
/// non-empty field, with no sheet.
pub open spec fn field_cells(fields: Seq<Seq<char>>, row: int, n: int) -> Seq<CellView>
    decreases n,
{
    if n <= 0 {
        seq![]
    } else {
        let prev = field_cells(fields, row, n - 1);
        if fields[n - 1].len() > 0 {
            prev.push(
                CellView {
                    sheet: seq![],
                    cell: a1(row as nat, (n - 1) as nat),
                    layer: Layer::Display,
                    text: fields[n - 1],
                },
            )
        } else {
            prev
        }
    }
}

/// The message for an error in record `row` (0-based).
pub open spec fn row_error(row: int, msg: Seq<char>) -> Seq<char> {
    seq!['c', 's', 'v', ' ', 'r', 'o', 'w', ' '] + decimal((row + 1) as nat) + seq![':', ' '] + msg
}

/// The message for a file with more rows or columns than A1 addresses
/// can name.
pub open spec fn too_large_error(row: int) -> Seq<char> {
    row_error(row, seq!['t', 'o', 'o', ' ', 'm', 'a', 'n', 'y', ' ', 'r', 'o', 'w', 's', ' ', 'o', 'r', ' ', 'c', 'o',
        'l', 'u', 'm', 'n', 's'])
}

/// The cells of the first `n` records, or the message of the first error.
pub open spec fn records_cells(recs: Seq<Result<Seq<Seq<char>>, Seq<char>>>, n: int) -> Result<Seq<CellView>, Seq<char>>
    decreases n,
{
    if n <= 0 {
        Ok(seq![])
    } else {
        match records_cells(recs, n - 1) {
            Err(m) => Err(m),
            Ok(prev) => match recs[n - 1] {
                Err(m) => Err(row_error(n - 1, m)),
                Ok(fields) => if n - 1 < u32::MAX && fields.len() <= u32::MAX {
                    Ok(prev + field_cells(fields, n - 1, fields.len() as int))
                } else {
                    Err(too_large_error(n - 1))
                },
            },
        }
    }
}

proof fn lemma_field_cells_members(fields: Seq<Seq<char>>, row: int, m: int)
    requires
        0 <= m <= fields.len(),
    ensures
        forall|j: int|
            0 <= j < m && (#[trigger] fields[j]).len() > 0 ==> field_cells(fields, row, m).contains(
                (CellView { sheet: seq![], cell: a1(row as nat, j as nat), layer: Layer::Display, text: fields[j] }),
            ),
        forall|c: CellView|
            #[trigger] field_cells(fields, row, m).contains(c) ==> exists|j: int|
                0 <= j < m && (#[trigger] fields[j]).len() > 0 && c == (CellView {
                    sheet: seq![],
                    cell: a1(row as nat, j as nat),
                    layer: Layer::Display,
                    text: fields[j],
                }),
    decreases m,
{
    if m > 0 {
        lemma_field_cells_members(fields, row, m - 1);
        let prev = field_cells(fields, row, m - 1);
        let cur = field_cells(fields, row, m);
        assert forall|j: int|
            0 <= j < m && (#[trigger] fields[j]).len() > 0 implies cur.contains(
            (CellView { sheet: seq![], cell: a1(row as nat, j as nat), layer: Layer::Display, text: fields[j] }),
        ) by {
            let cv = CellView { sheet: seq![], cell: a1(row as nat, j as nat), layer: Layer::Display, text: fields[j] };
            if j < m - 1 {
                assert(prev.contains(cv));
                let q = choose|q: int| 0 <= q < prev.len() && prev[q] == cv;
                assert(cur[q] == cv);
            } else {
                assert(cur[prev.len() as int] == cv);
            }
        }
        assert forall|c: CellView| #[trigger] cur.contains(c) implies exists|j: int|
            0 <= j < m && (#[trigger] fields[j]).len() > 0 && c == (CellView {
                sheet: seq![],
                cell: a1(row as nat, j as nat),
                layer: Layer::Display,
                text: fields[j],
            }) by {
            let q = choose|q: int| 0 <= q < cur.len() && cur[q] == c;
            if q < prev.len() {
                assert(cur[q] == prev[q]);
                assert(prev.contains(c));
            } else {
                assert(fields[m - 1].len() > 0);
            }
        }
    }
}

/// A record's position in the file fixes its row: when the first `n`
/// records read cleanly, the non-empty field `j` of record `i` (0-based,
/// blank and all-empty records counted) is the cell at A1 address
/// `a1(i, j)` holding that field, whatever the records before it hold; and
/// every cell is such a field.
pub proof fn lemma_record_position_is_row(recs: Seq<Result<Seq<Seq<char>>, Seq<char>>>, n: int)
    requires
        0 <= n <= recs.len(),
        records_cells(recs, n) is Ok,
    ensures
        forall|i: int, j: int|
            #![trigger recs[i], (recs[i]->Ok_0)[j]]
            0 <= i < n && recs[i] is Ok && 0 <= j < (recs[i]->Ok_0).len() && (recs[i]->Ok_0)[j].len() > 0
                ==> (records_cells(recs, n)->Ok_0).contains(
                (CellView {
                    sheet: seq![],
                    cell: a1(i as nat, j as nat),
                    layer: Layer::Display,
                    text: (recs[i]->Ok_0)[j],
                }),
            ),
        forall|c: CellView|
            #[trigger] (records_cells(recs, n)->Ok_0).contains(c) ==> exists|i: int, j: int|
                #![trigger recs[i], (recs[i]->Ok_0)[j]]
                0 <= i < n && recs[i] is Ok && 0 <= j < (recs[i]->Ok_0).len() && (recs[i]->Ok_0)[j].len()
                    > 0 && c == (CellView {
                    sheet: seq![],
                    cell: a1(i as nat, j as nat),
                    layer: Layer::Display,
                    text: (recs[i]->Ok_0)[j],
                }),
    decreases n,
{
    if n > 0 {
        let prev = records_cells(recs, n - 1);
        assert(prev is Ok);
        lemma_record_position_is_row(recs, n - 1);
        let pc = prev->Ok_0;
        let fields = recs[n - 1]->Ok_0;
        lemma_field_cells_members(fields, n - 1, fields.len() as int);
        let fc = field_cells(fields, n - 1, fields.len() as int);
        let cur = records_cells(recs, n)->Ok_0;
        assert(cur == pc + fc);
        assert forall|i: int, j: int|
            #![trigger recs[i], (recs[i]->Ok_0)[j]]
            0 <= i < n && recs[i] is Ok && 0 <= j < (recs[i]->Ok_0).len() && (recs[i]->Ok_0)[j].len() > 0
                implies cur.contains(
            (CellView { sheet: seq![], cell: a1(i as nat, j as nat), layer: Layer::Display, text: (recs[i]->Ok_0)[j] }),
        ) by {
            let cv = CellView { sheet: seq![], cell: a1(i as nat, j as nat), layer: Layer::Display, text: (recs[i]->Ok_0)[j] };
            if i < n - 1 {
                assert(pc.contains(cv));
                let q = choose|q: int| 0 <= q < pc.len() && pc[q] == cv;
                assert(cur[q] == cv);
            } else {
                assert(fields[j].len() > 0);
                assert(fc.contains(cv));
                let q = choose|q: int| 0 <= q < fc.len() && fc[q] == cv;
                assert(cur[pc.len() + q] == cv);
            }
        }
        assert forall|c: CellView| #[trigger] cur.contains(c) implies exists|i: int, j: int|
            #![trigger recs[i], (recs[i]->Ok_0)[j]]
            0 <= i < n && recs[i] is Ok && 0 <= j < (recs[i]->Ok_0).len() && (recs[i]->Ok_0)[j].len() > 0 && c
                == (CellView {
                sheet: seq![],
                cell: a1(i as nat, j as nat),
                layer: Layer::Display,
                text: (recs[i]->Ok_0)[j],
            }) by {
            let q = choose|q: int| 0 <= q < cur.len() && cur[q] == c;
            if q < pc.len() {
                assert(pc[q] == c);
                assert(pc.contains(c));
            } else {
                assert(fc[q - pc.len()] == c);
                assert(fc.contains(c));
                let j = choose|j: int| 0 <= j < fields.len() && (#[trigger] fields[j]).len() > 0 && c == (CellView {
                    sheet: seq![],
                    cell: a1((n - 1) as nat, j as nat),
                    layer: Layer::Display,
                    text: fields[j],
                });
                assert(recs[n - 1] is Ok && (recs[n - 1]->Ok_0)[j] == fields[j]);
            }
        }
    }
}

/// The outcome of reading a CSV/TSV file's bytes: its cells, or the
/// message of the parse error.
pub open spec fn csv_outcome(b: Seq<u8>, ext: Option<Seq<char>>, explicit: Option<Seq<char>>) -> Result<
    Seq<CellView>,
    Seq<char>,
> {
    let label = chosen_label(b, explicit);
    if !encoding_label_known(label) {
        Err(seq!['u', 'n', 'k', 'n', 'o', 'w', 'n', ' ', 'e', 'n', 'c', 'o', 'd', 'i', 'n', 'g', ':', ' '] + label)
    } else {
        let text = decode_by_label(label, b.subrange(bom_hint(b).1, b.len() as int));
        match delimiter_for(ext) {
            Err(m) => Err(m),
            Ok(d) => {
                let recs = csv_records_of(text, d);
                records_cells(recs, recs.len() as int)
            },
        }
    }
}

/// Read a CSV/TSV file's bytes into cells. `extension` is the file's
/// extension (`None` when it has none), `encoding` the label given with
/// `-E`. Every error is a parse error: an unknown encoding label, an
/// extension that is neither csv nor tsv, or a malformed record.
pub fn read_csv_cells(bytes: &[u8], extension: Option<&str>, encoding: Option<&str>) -> (r: Result<Vec<CellRecord>, SearchError>)
    requires
        bytes@.len() <= usize::MAX / 4,
    ensures
        match csv_outcome(
            bytes@,
            match extension {
                Some(e) => Some(e@),
                None => None,
            },
            match encoding {
                Some(e) => Some(e@),
                None => None,
            },
        ) {
            Ok(cells) => r matches Ok(v) && crate::cell_views(v@) == cells,
            Err(m) => r matches Err(SearchError::Parse(msg)) && msg@ == m,
        },
{
    proof {
        reveal_strlit("utf-8");
        reveal_strlit("utf-16le");
        reveal_strlit("utf-16be");
        assert("utf-8"@ =~= seq!['u', 't', 'f', '-', '8']);
        assert("utf-16le"@ =~= seq!['u', 't', 'f', '-', '1', '6', 'l', 'e']);
        assert("utf-16be"@ =~= seq!['u', 't', 'f', '-', '1', '6', 'b', 'e']);
    }
    let (bom, body_start): (Option<&str>, usize) = if bytes.len() >= 3 && bytes[0] == 0xEFu8 && bytes[1] == 0xBBu8
        && bytes[2] == 0xBFu8 {
        (Some("utf-8"), 3)
    } else if bytes.len() >= 2 && bytes[0] == 0xFFu8 && bytes[1] == 0xFEu8 {
        (Some("utf-16le"), 0)
    } else if bytes.len() >= 2 && bytes[0] == 0xFEu8 && bytes[1] == 0xFFu8 {
        (Some("utf-16be"), 0)
    } else {
        (None, 0)
    };
    let label: &str = match encoding {
        Some(l) => l,
        None => match bom {
            Some(l) => l,
            None => "utf-8",
        },
    };
    let ghost ext_view = match extension {
        Some(e) => Some(e@),
        None => None,
    };
    let ghost enc_view = match encoding {
        Some(e) => Some(e@),
        None => None,
    };
    assert(label@ == chosen_label(bytes@, enc_view));
    let body = &bytes[body_start..bytes.len()];
    let text = match decode_with_label(label, body) {
        Some(t) => t,
        None => {
            proof {
                reveal_strlit("unknown encoding: ");
                assert("unknown encoding: "@ =~= seq!['u', 'n', 'k', 'n', 'o', 'w', 'n', ' ', 'e', 'n', 'c', 'o', 'd', 'i', 'n', 'g', ':', ' ']);
            }
            return Err(SearchError::Parse(string_concat("unknown encoding: ", label)));
        },
    };
    let delimiter: u8 = match extension {
        Some(ext) => {
            proof {
                reveal_strlit("csv");
                reveal_strlit("tsv");
                assert("csv"@ =~= seq!['c', 's', 'v']);
                assert("tsv"@ =~= seq!['t', 's', 'v']);
            }
            if eq_ignore_ascii_case(ext, "csv") {
                44u8
            } else if eq_ignore_ascii_case(ext, "tsv") {
                9u8
            } else {
                proof {
                    reveal_strlit("internal: unexpected extension '");
                    reveal_strlit("' routed to csv reader");
                    assert("internal: unexpected extension '"@ =~= seq!['i', 'n', 't', 'e', 'r', 'n', 'a', 'l', ':', ' ', 'u', 'n', 'e', 'x', 'p', 'e', 'c', 't',
                        'e', 'd', ' ', 'e', 'x', 't', 'e', 'n', 's', 'i', 'o', 'n', ' ', '\'']);
                    assert("' routed to csv reader"@ =~= seq!['\'', ' ',
                        'r', 'o', 'u', 't', 'e', 'd', ' ', 't', 'o', ' ', 'c', 's', 'v', ' ', 'r', 'e', 'a', 'd', 'e',
                        'r']);
                }
                let a = string_concat("internal: unexpected extension '", ext);
                return Err(SearchError::Parse(string_concat(a.as_str(), "' routed to csv reader")));
            }
        },
        None => {
            proof {
                reveal_strlit("file has no extension");
                assert("file has no extension"@ =~= seq!['f', 'i', 'l', 'e', ' ', 'h', 'a', 's', ' ', 'n', 'o', ' ', 'e', 'x', 't', 'e', 'n', 's', 'i',
                    'o', 'n']);
            }
            return Err(SearchError::Parse("file has no extension".to_owned()));
        },
    };
    assert(delimiter_for(ext_view) == Ok::<u8, Seq<char>>(delimiter));
    let recs = csv_records(text.as_str(), delimiter);
    let ghost rv = record_views(recs@);
    let mut out: Vec<CellRecord> = Vec::new();
    let mut row: usize = 0;
    assert(body@ =~= bytes@.subrange(bom_hint(bytes@).1, bytes@.len() as int));
    assert(csv_outcome(bytes@, ext_view, enc_view) == records_cells(rv, rv.len() as int));
    assert(crate::cell_views(out@) =~= Seq::<CellView>::empty());
    while row < recs.len()
        invariant
            row <= recs@.len(),
            rv == record_views(recs@),
            csv_outcome(bytes@, ext_view, enc_view) == records_cells(rv, rv.len() as int),
            ext_view == match extension {
                Some(e) => Some(e@),
                None => None,
            },
            enc_view == match encoding {
                Some(e) => Some(e@),
                None => None,
            },
            records_cells(rv, row as int) == Ok::<Seq<CellView>, Seq<char>>(crate::cell_views(out@)),
        decreases recs@.len() - row,
    {
        match &recs[row] {
            Err(m) => {
                let mut msg = "csv row ".to_owned();
                push_decimal(&mut msg, (row as u128) + 1);
                msg.append(": ");
                msg.append(m.as_str());
                proof {
                    reveal_strlit("csv row ");
                    reveal_strlit(": ");
                    assert(msg@ =~= row_error(row as int, m@));
                    assert(rv[row as int] == Err::<Seq<Seq<char>>, Seq<char>>(m@));
                    assert(records_cells(rv, row as int + 1) == Err::<Seq<CellView>, Seq<char>>(row_error(row as int, m@)));
                    lemma_records_cells_err_stays(rv, row as int + 1, rv.len() as int);
                }
                return Err(SearchError::Parse(msg));
            },
            Ok(fields) => {
                if row >= 4294967295usize || fields.len() > 4294967295usize {
                    let mut msg = "csv row ".to_owned();
                    push_decimal(&mut msg, (row as u128) + 1);
                    msg.append(": too many rows or columns");
                    proof {
                        reveal_strlit("csv row ");
                        reveal_strlit(": too many rows or columns");
                        assert(msg@ =~= too_large_error(row as int));
                        lemma_records_cells_err_stays(rv, row as int + 1, rv.len() as int);
                    }
                    return Err(SearchError::Parse(msg));
                }
                let ghost fv = fields@.map_values(|f: String| f@);
                let ghost before = crate::cell_views(out@);
                let mut col: usize = 0;
                while col < fields.len()
                    invariant
                        col <= fields@.len(),
                        fields@.len() <= u32::MAX,
                        row < u32::MAX,
                        fv == fields@.map_values(|f: String| f@),
                        crate::cell_views(out@) == before + field_cells(fv, row as int, col as int),
                    decreases fields@.len() - col,
                {
                    let f = &fields[col];
                    if f.unicode_len() > 0 {
                        let ghost mid = out@;
                        out.push(
                            CellRecord {
                                sheet: String::new(),
                                cell: to_a1(row as u32, col as u32),
                                layer: Layer::Display,
                                text: f.clone(),
                            },
                        );
                        assert(crate::cell_views(out@) =~= crate::cell_views(mid).push(
                            CellView { sheet: seq![], cell: a1(row as nat, col as nat), layer: Layer::Display, text: fv[col as int] },
                        ));
                    }
                    assert(crate::cell_views(out@) =~= before + field_cells(fv, row as int, col + 1));
                    col = col + 1;
                }
                assert(rv[row as int] == Ok::<Seq<Seq<char>>, Seq<char>>(fv));
            },
        }
        row = row + 1;
    }
    Ok(out)
}

proof fn lemma_records_cells_err_stays(recs: Seq<Result<Seq<Seq<char>>, Seq<char>>>, m: int, n: int)
    requires
        0 <= m <= n,
        records_cells(recs, m) is Err,
    ensures
        records_cells(recs, n) == records_cells(recs, m),
    decreases n - m,
{
    if m < n {
        lemma_records_cells_err_stays(recs, m, n - 1);
    }
}

} // verus!
