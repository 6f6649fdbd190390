//! xlsx / csv cell extraction: the pieces of the reader that compute on
//! bytes and strings, and the decisions the reader takes per workbook and
//! per sheet. Opening files and zip entries happens in the application;
//! everything it reads is handed to the functions here.

pub mod cells;
pub mod comments;
pub mod csv;
pub mod fast_path;
pub mod hidden;
pub mod sst;
pub mod xml_scan;
pub mod zip_index;

use vstd::prelude::*;

use crate::config::{Layer, LayerSet};
use crate::matcher::Pattern;
use crate::reader::fast_path::{augment, augment_result_ok, decide, dense, must_parse, should_dense_bypass, stripped, AugmentResult};
use crate::reader::sst::{count_true, HitSet};
use crate::support::str_eq;
use crate::reader::xml_scan::{attr, attr_value, find_bytes, for_each_tag, occurs_at, scan_elements, span_ok};
use vstd::string::StringSliceAdditionalSpecFns;

verus! {

#[verifier::external_type_specification]
#[verifier::external_body]
pub struct ExGlobSet(globset::GlobSet);

#[verifier::external_type_specification]
#[verifier::external_body]
pub struct ExGlobError(globset::Error);

/// Whether `globset::Glob::new(glob)` accepts the glob and a `GlobSet`
/// holding just that glob builds.
pub uninterp spec fn glob_valid(glob: Seq<char>) -> bool;

/// Whether the `GlobSet` holding just `glob` matches `text` (taken as a
/// path).
pub uninterp spec fn glob_matches(glob: Seq<char>, text: Seq<char>) -> bool;

/// `GlobSet::clone`; nothing is stated of the copy here: `SheetFilter`
/// carries the glob text that the copy was built from.
pub assume_specification[ <globset::GlobSet as Clone>::clone ](m: &globset::GlobSet) -> globset::GlobSet;

/// The longest glob text (in characters) a sheet filter takes. Building a
/// `GlobSet` unwraps an Aho-Corasick automaton for a glob's literal prefix
/// or suffix, which fails only for a literal of about `i32::MAX` bytes;
/// globs under this length stay far below that.
pub const MAX_GLOB_CHARS: usize = 0x1000_0000;

/// `globset::Glob::new(glob)` and, when the glob is accepted, a `GlobSet`
/// holding just that glob (`GlobSetBuilder::add`, then `build`). Unlike
/// `Glob::compile_matcher`, which panics when the glob's regex cannot be
/// built (nesting or size limits), `build` returns that as an error.
#[verifier::external_body]
fn compile_glob(glob: &str) -> (r: Result<globset::GlobSet, globset::Error>)
    requires
        glob@.len() < MAX_GLOB_CHARS,
    ensures
        r is Ok <==> glob_valid(glob@),
{
    match globset::Glob::new(glob) {
        Ok(g) => globset::GlobSetBuilder::new().add(g).build(),
        Err(e) => Err(e),
    }
}

/// A glob over sheet names (`--sheet`).
#[derive(Debug)]
pub struct SheetFilter {
    matcher: globset::GlobSet,
    glob: String,
}

/// `GlobSet::is_match` on `text` taken as a path.
#[verifier::external_body]
fn glob_is_match(f: &SheetFilter, text: &str) -> (r: bool)
    ensures
        r == glob_matches(f.glob_text(), text@),
{
    f.matcher.is_match(text)
}

impl SheetFilter {
    /// The glob text the filter was compiled from.
    pub closed spec fn glob_text(&self) -> Seq<char> {
        self.glob@
    }

    /// Compile a sheet-name glob.
    pub fn new(glob: &str) -> (r: Result<SheetFilter, globset::Error>)
        requires
            glob@.len() < MAX_GLOB_CHARS,
        ensures
            r is Ok <==> glob_valid(glob@),
            r matches Ok(f) ==> f.glob_text() == glob@,
    {
        match compile_glob(glob) {
            Ok(matcher) => Ok(SheetFilter { matcher, glob: glob.to_owned() }),
            Err(e) => Err(e),
        }
    }

    /// Whether a sheet name matches the glob.
    pub fn is_match(&self, name: &str) -> (r: bool)
        ensures
            r == glob_matches(self.glob_text(), name@),
    {
        glob_is_match(self, name)
    }
}

impl Clone for SheetFilter {
    fn clone(&self) -> (r: Self)
        ensures
            r.glob_text() == self.glob_text(),
    {
        SheetFilter { matcher: self.matcher.clone(), glob: self.glob.clone() }
    }
}

/// What to read and how.
#[derive(Debug, Clone)]
pub struct ReaderOptions<'a> {
    pub layers: LayerSet,
    pub include_hidden: bool,
    pub sheet_filter: Option<SheetFilter>,
    /// Pattern visible to the reader for fast-path decisions. When None, the
    /// reader parses every sheet (no skip, no sst pre-scan).
    pub pattern: Option<&'a Pattern>,
    /// True to bypass all fast paths regardless of `pattern`
    /// (`XGREP_DISABLE_FAST_PATH=1`).
    pub disable_fast_path: bool,
    /// Override CSV decoding encoding (e.g. "gbk", "utf-16le"). `None` =
    /// UTF-8 default with BOM auto-detect. Ignored for xlsx.
    pub encoding: Option<String>,
}

impl<'a> ReaderOptions<'a> {
    /// The default reader: display, cached and comment layers, hidden
    /// content included, every sheet, no pattern, fast paths on, no
    /// encoding override.
    pub fn defaults_for_v01() -> (r: Self)
        ensures
            r.layers.has(crate::config::display_bit()),
            r.layers.has(crate::config::cached_bit()),
            r.layers.has(crate::config::comment_bit()),
            !r.layers.has(crate::config::formula_bit()),
            r.include_hidden,
            r.sheet_filter is None,
            r.pattern is None,
            !r.disable_fast_path,
            r.encoding is None,
    {
        ReaderOptions {
            layers: LayerSet::defaults(),
            include_hidden: true,
            sheet_filter: None,
            pattern: None,
            disable_fast_path: false,
            encoding: None,
        }
    }
}

impl<'a> Default for ReaderOptions<'a> {
    fn default() -> (r: Self)
        ensures
            r.layers.has(crate::config::display_bit()),
            r.layers.has(crate::config::cached_bit()),
            r.layers.has(crate::config::comment_bit()),
            !r.layers.has(crate::config::formula_bit()),
            r.include_hidden,
            r.sheet_filter is None,
            r.pattern is None,
            !r.disable_fast_path,
            r.encoding is None,
    {
        Self::defaults_for_v01()
    }
}

/// One searchable piece of text: a cell's display value, cached formula
/// result, formula text or comment.
#[derive(Debug, Clone, PartialEq, Eq)]
pub struct CellRecord {
    pub sheet: String,
    pub cell: String,
    pub layer: Layer,
    pub text: String,
}

/// A `CellRecord` as plain values.
pub struct CellView {
    pub sheet: Seq<char>,
    pub cell: Seq<char>,
    pub layer: Layer,
    pub text: Seq<char>,
}

impl View for CellRecord {
    type V = CellView;

    open spec fn view(&self) -> CellView {
        CellView { sheet: self.sheet@, cell: self.cell@, layer: self.layer, text: self.text@ }
    }
}

/// Whether the shared-string pre-scan and the sheet screen run at all.
pub open spec fn fast_path_wanted(pattern: Option<&Pattern>, disable_fast_path: bool) -> bool {
    !disable_fast_path && pattern is Some
}

/// Whether the shared-string pre-scan and the sheet screen run at all:
/// only with a pattern and the fast path not disabled.
pub fn wants_fast_path(opts: &ReaderOptions) -> (r: bool)
    ensures
        r == fast_path_wanted(opts.pattern, opts.disable_fast_path),
{
    !opts.disable_fast_path && opts.pattern.is_some()
}

/// The bytes of the tag name `c` and of the attribute name `t`.
proof fn lemma_cell_names()
    ensures
        "c".spec_bytes() == cell_tag(),
        "t".spec_bytes() == seq![116u8],
{
    reveal_strlit("c");
    reveal_strlit("t");
    assert(vstd::utf8::is_ascii_chars("c"@));
    assert(vstd::utf8::is_ascii_chars("t"@));
    vstd::utf8::is_ascii_chars_encode_utf8("c"@);
    vstd::utf8::is_ascii_chars_encode_utf8("t"@);
    assert("c".spec_bytes() =~= cell_tag());
    assert("t".spec_bytes() =~= seq![116u8]);
}

/// The `<c>` element `e` is not a shared-string cell: its `t` attribute is
/// missing or other than `s` (numbers, dates, booleans, errors, formula
/// results and inline strings), so its text as displayed need not appear
/// in the sheet xml as it is.
pub open spec fn literal_cell(xml: Seq<u8>, e: (int, int, int)) -> bool {
    let attrs = xml.subrange(e.0, e.1);
    match attr_value(attrs, seq![116u8]) {
        Some((a, b)) => attrs.subrange(a, b) != seq![115u8],
        None => true,
    }
}

/// The tag name `c` of a cell element.
pub open spec fn cell_tag() -> Seq<u8> {
    seq![99u8]
}

/// `:c `, the end of a prefixed cell tag's name.
pub open spec fn prefixed_open() -> Seq<u8> {
    seq![58u8, 99u8, 32u8]
}

/// `:c>`, the end of a prefixed cell tag without attributes.
pub open spec fn prefixed_bare() -> Seq<u8> {
    seq![58u8, 99u8, 62u8]
}

/// The sheet xml writes its cells with a namespace prefix (`<x:c ...>`).
pub open spec fn prefixed_cells(xml: Seq<u8>) -> bool {
    (exists|i: int| #[trigger] occurs_at(xml, prefixed_open(), i)) || (exists|i: int|
        #[trigger] occurs_at(xml, prefixed_bare(), i))
}

/// The sheet holds a cell whose displayed text the byte screen cannot
/// vouch for: a non-shared-string `<c>` element, or prefixed cell tags.
pub open spec fn has_literal_cells(xml: Seq<u8>) -> bool {
    prefixed_cells(xml) || exists|k: int|
        0 <= k < scan_elements(xml, cell_tag(), 0).len() && literal_cell(
            xml,
            #[trigger] scan_elements(xml, cell_tag(), 0)[k],
        )
}

/// Whether the sheet xml holds a cell that must be parsed whatever the
/// screen says.
pub fn sheet_has_literal_cells(xml: &[u8]) -> (r: bool)
    ensures
        r == has_literal_cells(xml@),
{
    proof {
        lemma_cell_names();
    }
    let mut n1: Vec<u8> = Vec::new();
    n1.push(58u8);
    n1.push(99u8);
    n1.push(32u8);
    let mut n2: Vec<u8> = Vec::new();
    n2.push(58u8);
    n2.push(99u8);
    n2.push(62u8);
    assert(n1@ =~= prefixed_open());
    assert(n2@ =~= prefixed_bare());
    if find_bytes(xml, n1.as_slice()).is_some() || find_bytes(xml, n2.as_slice()).is_some() {
        return true;
    }
    let spans = for_each_tag(xml, "c");
    let ghost elems = scan_elements(xml@, cell_tag(), 0);
    let mut k: usize = 0;
    while k < spans.len()
        invariant
            k <= spans@.len(),
            "t".spec_bytes() == seq![116u8],
            !prefixed_cells(xml@),
            elems == scan_elements(xml@, cell_tag(), 0),
            spans@.len() == elems.len(),
            forall|i: int| 0 <= i < spans@.len() ==> #[trigger] spans@[i].describes(elems[i], 1),
            forall|i: int| 0 <= i < spans@.len() ==> span_ok(xml@, #[trigger] spans@[i]),
            forall|i: int| 0 <= i < k ==> !literal_cell(xml@, #[trigger] elems[i]),
        decreases spans@.len() - k,
    {
        let s = spans[k];
        assert(spans@[k as int].describes(elems[k as int], 1));
        assert(span_ok(xml@, spans@[k as int]));
        let attrs = &xml[s.attrs_start..s.attrs_end];
        assert(attrs@ =~= xml@.subrange(elems[k as int].0, elems[k as int].1));
        let literal = match attr(attrs, "t") {
            Some(v) => !(v.len() == 1 && v[0] == 115u8),
            None => true,
        };
        proof {
            if let Some((a, b)) = attr_value(attrs@, seq![116u8]) {
                let v = attrs@.subrange(a, b);
                if v.len() == 1 && v[0] == 115u8 {
                    assert(v =~= seq![115u8]);
                }
            }
        }
        assert(literal == literal_cell(xml@, elems[k as int]));
        if literal {
            return true;
        }
        k = k + 1;
    }
    false
}

/// The per-sheet screen of a workbook: the shared-string hit set and, when
/// sheets are screened at all, the augmented regex.
pub struct Screen {
    hit_set: HitSet,
    augmented: Option<AugmentResult>,
}

impl Screen {
    /// The shared-string hit flags.
    pub closed spec fn flags(&self) -> Seq<bool> {
        self.hit_set.flags()
    }

    /// The screen, when sheets are screened.
    pub closed spec fn screen(&self) -> Option<AugmentResult> {
        self.augmented
    }

    #[verifier::type_invariant]
    closed spec fn pattern_only_has_no_hits(self) -> bool {
        self.augmented matches Some(AugmentResult::PatternOnly(_)) ==> forall|i: int|
            0 <= i < self.hit_set.flags().len() ==> !self.hit_set.flags()[i]
    }

    /// Whether sheets are screened at all (else every sheet is parsed).
    pub fn is_active(&self) -> (r: bool)
        ensures
            r == self.screen() is Some,
    {
        self.augmented.is_some()
    }

    /// Whether a sheet must be parsed: always when there is no screen, the
    /// sheet's xml cannot be found or it holds a cell that is not a
    /// shared string (its displayed text need not appear in the xml as it
    /// is); otherwise as the screen decides on the sheet's xml bytes.
    pub fn needs_parse(&self, sheet_xml: Option<&[u8]>) -> (r: bool)
        ensures
            r == match self.screen() {
                None => true,
                Some(aug) => match sheet_xml {
                    None => true,
                    Some(x) => has_literal_cells(x@) || must_parse(x@, aug),
                },
            },
    {
        proof {
            use_type_invariant(self);
        }
        match &self.augmented {
            None => true,
            Some(aug) => match sheet_xml {
                None => true,
                Some(x) => sheet_has_literal_cells(x) || decide(x, aug, self.hit_set.is_empty()),
            },
        }
    }
}

/// Plan the per-sheet screen from the result of the shared-string scan
/// (`(size, hit set, aborted)`). Sheets are screened only when the fast
/// path is wanted, the scan did not abort (its hit set is then partial)
/// and the hit set is not so dense that nearly every sheet would match.
pub fn plan_screen(pattern: Option<&Pattern>, disable_fast_path: bool, scan: (usize, HitSet, bool)) -> (r: Screen)
    ensures
        r.flags() == scan.1.flags(),
        r.screen() is Some <==> (fast_path_wanted(pattern, disable_fast_path) && !scan.2 && !dense(
            count_true(scan.1.flags()) as int,
            scan.1.flags().len() as int,
        )),
        r.screen() matches Some(aug) ==> pattern matches Some(p) && augment_result_ok(
            aug,
            stripped(p.raw_text()),
            p.ignores_case(),
            scan.1.flags(),
        ),
{
    let (_size, hit_set, aborted) = scan;
    let wanted = !disable_fast_path && pattern.is_some();
    let dense_bypass = wanted && !aborted && should_dense_bypass(hit_set.count(), hit_set.len());
    let augmented = if wanted && !aborted && !dense_bypass {
        match pattern {
            Some(p) => Some(augment(p, &hit_set)),
            None => None,
        }
    } else {
        None
    };
    Screen { hit_set, augmented }
}

/// A sheet is read when it matches the sheet filter (if any) and is
/// visible or hidden content is included.
pub open spec fn sheet_wanted(filter: Option<SheetFilter>, include_hidden: bool, name: Seq<char>, visible: bool) -> bool {
    (match filter {
        Some(f) => glob_matches(f.glob_text(), name),
        None => true,
    }) && (include_hidden || visible)
}

/// Whether a sheet is read at all.
pub fn sheet_selected(opts: &ReaderOptions, name: &str, visible: bool) -> (r: bool)
    ensures
        r == sheet_wanted(opts.sheet_filter, opts.include_hidden, name@, visible),
{
    let by_name = match &opts.sheet_filter {
        Some(f) => f.is_match(name),
        None => true,
    };
    by_name && (opts.include_hidden || visible)
}

/// Whether a comment of `sheet` is kept: the sheet matches the filter (if
/// any) and is visible, or hidden content is included.
pub fn comment_selected(opts: &ReaderOptions, sheet: &str, visible_sheets: &Vec<String>) -> (r: bool)
    ensures
        r == sheet_wanted(
            opts.sheet_filter,
            opts.include_hidden,
            sheet@,
            exists|k: int| 0 <= k < visible_sheets@.len() && #[trigger] visible_sheets@[k]@ == sheet@,
        ),
{
    let by_name = match &opts.sheet_filter {
        Some(f) => f.is_match(sheet),
        None => true,
    };
    if !by_name {
        return false;
    }
    if opts.include_hidden {
        return true;
    }
    let mut k: usize = 0;
    while k < visible_sheets.len()
        invariant
            k <= visible_sheets@.len(),
            !opts.include_hidden,
            match opts.sheet_filter {
                Some(f) => glob_matches(f.glob_text(), sheet@),
                None => true,
            },
            forall|j: int| 0 <= j < k ==> visible_sheets@[j]@ != sheet@,
        decreases visible_sheets@.len() - k,
    {
        if str_eq(visible_sheets[k].as_str(), sheet) {
            assert(visible_sheets@[k as int]@ == sheet@);
            assert(exists|j: int| 0 <= j < visible_sheets@.len() && #[trigger] visible_sheets@[j]@ == sheet@);
            return true;
        }
        k = k + 1;
    }
    false
}

/// The index of the first cell whose text matches the pattern.
pub open spec fn first_matching(cells: Seq<CellView>, p: Pattern, n: int) -> Option<int>
    decreases n,
{
    if n <= 0 {
        None
    } else {
        match first_matching(cells, p, n - 1) {
            Some(k) => Some(k),
            None => if p.matches(cells[n - 1].text) {
                Some(n - 1)
            } else {
                None
            },
        }
    }
}

/// The check behind the debug-build oracle on a skipped sheet: the first
/// of the sheet's cells (parsed the slow way) whose text matches the
/// pattern. A skip was safe exactly when there is none.
pub fn first_match_in_skipped(fallback_cells: &[CellRecord], pattern: &Pattern) -> (r: Option<usize>)
    ensures
        match first_matching(crate::cell_views(fallback_cells@), *pattern, fallback_cells@.len() as int) {
            Some(k) => r == Some(k as usize),
            None => r is None,
        },
{
    let ghost cv = crate::cell_views(fallback_cells@);
    let mut k: usize = 0;
    while k < fallback_cells.len()
        invariant
            k <= fallback_cells@.len(),
            cv == crate::cell_views(fallback_cells@),
            first_matching(cv, *pattern, k as int) is None,
        decreases fallback_cells@.len() - k,
    {
        assert(cv[k as int] == fallback_cells@[k as int]@);
        if pattern.is_match(fallback_cells[k].text.as_str()) {
            proof {
                lemma_first_matching_stays(cv, *pattern, k + 1, fallback_cells@.len() as int);
            }
            return Some(k);
        }
        k = k + 1;
    }
    None
}

proof fn lemma_first_matching_stays(cells: Seq<CellView>, p: Pattern, m: int, n: int)
    requires
        0 <= m <= n,
        first_matching(cells, p, m) is Some,
    ensures
        first_matching(cells, p, n) == first_matching(cells, p, m),
    decreases n - m,
{
    if m < n {
        lemma_first_matching_stays(cells, p, m, n - 1);
    }
}

} // verus!
