//! Byte-scan screening of a sheet's xml against an augmented regex that
//! combines the user pattern with the shared-string hit references.
//!
//! Decision per sheet:
//!   - augmented regex matches the sheet xml bytes -> full parse
//!   - hit set empty and no match                  -> skip
//!   - hit set non-empty and no match              -> skip only when the
//!     augmented regex encodes every hit index
//!
//! "Encodes every hit index" is bounded by `THRESHOLD`: above it the hit
//! indices are not folded in, and any sheet is parsed.

use vstd::prelude::*;
use vstd::utf8::*;

use crate::cell::{decimal, push_decimal};
use crate::matcher::{compile_regex, regex_compiles, regex_find_spans, regex_is_match, CompiledRegex, Pattern};
use crate::reader::sst::{count_true, HitSet};
use crate::support::{chars_of, str_from_utf8};

verus! {

/// Maximum sst hit-set size folded into the augmented regex. Above this,
/// every sheet is parsed when the hit set is non-empty.
pub const THRESHOLD: usize = 100;

/// Hit counts above this bypass the per-sheet scan: nearly every sheet
/// will match anyway.
pub const BYPASS_ABS_THRESHOLD: usize = 30;

/// Numerator of the hit density above which the per-sheet scan is
/// bypassed.
pub const BYPASS_DENSITY_NUMERATOR: usize = 1;

/// Denominator of the hit density above which the per-sheet scan is
/// bypassed.
pub const BYPASS_DENSITY_DENOMINATOR: usize = 20;

/// Whether the (hit count, sst length) pair says the per-sheet scan is
/// wasted work: many hits in absolute terms, or a high fraction of the sst.
pub open spec fn dense(hit_count: int, sst_len: int) -> bool {
    sst_len != 0 && (hit_count > BYPASS_ABS_THRESHOLD || hit_count * BYPASS_DENSITY_DENOMINATOR
        > sst_len * BYPASS_DENSITY_NUMERATOR)
}

/// Returns true if the (hit_count, sst_len) pair indicates the fast-path
/// per-sheet scan should be bypassed because nearly every sheet will
/// match anyway (making the scan wasted work).
pub fn should_dense_bypass(hit_count: usize, sst_len: usize) -> (r: bool)
    ensures
        r == dense(hit_count as int, sst_len as int),
{
    if sst_len == 0 {
        return false;
    }
    let lhs = (hit_count as u128) * (BYPASS_DENSITY_DENOMINATOR as u128);
    let rhs = (sst_len as u128) * (BYPASS_DENSITY_NUMERATOR as u128);
    hit_count > BYPASS_ABS_THRESHOLD || lhs > rhs
}

/// `raw` without one leading `^` and one trailing `$`.
pub open spec fn stripped(raw: Seq<char>) -> Seq<char> {
    let a = if raw.len() > 0 && raw[0] == '^' {
        raw.drop_first()
    } else {
        raw
    };
    if a.len() > 0 && a.last() == '$' {
        a.drop_last()
    } else {
        a
    }
}

/// Drop a leading `^` and a trailing `$` only; anchors elsewhere stay.
fn strip_anchors(raw: &str) -> (r: String)
    ensures
        r@ == stripped(raw@),
{
    let cs = chars_of(raw);
    let mut start: usize = 0;
    let mut end: usize = cs.len();
    if end > 0 && cs[0] == '^' {
        start = 1;
    }
    if end > start && cs[end - 1] == '$' {
        end = end - 1;
    }
    let mut out = String::new();
    let mut k = start;
    while k < end
        invariant
            start <= k <= end <= cs@.len(),
            out@ == cs@.subrange(start as int, k as int),
        decreases end - k,
    {
        out.push(cs[k]);
        assert(out@ =~= cs@.subrange(start as int, k + 1));
        k = k + 1;
    }
    proof {
        let a = if raw@.len() > 0 && raw@[0] == '^' {
            raw@.drop_first()
        } else {
            raw@
        };
        assert(a =~= cs@.subrange(start as int, cs@.len() as int));
        assert(stripped(raw@) =~= cs@.subrange(start as int, end as int));
    }
    out
}

/// `c` occurs in `s`.
pub open spec fn has_char(s: Seq<char>, c: char) -> bool {
    exists|i: int| 0 <= i < s.len() && s[i] == c
}

fn contains_char(s: &str, c: char) -> (r: bool)
    ensures
        r == has_char(s@, c),
{
    for x in it: s.chars()
        invariant
            it.seq() == s@,
            forall|i: int| 0 <= i < it.index() ==> s@[i] != c,
    {
        assert(x == s@[it.index() as int]);
        if x == c {
            return true;
        }
    }
    false
}

/// The `|<v>i</v>` alternatives for the set flags among the first `n`.
pub open spec fn hit_alternatives(flags: Seq<bool>, n: int) -> Seq<char>
    decreases n,
{
    if n <= 0 {
        seq![]
    } else {
        hit_alternatives(flags, n - 1) + if flags[n - 1] {
            seq!['|', '<', 'v', '>'] + decimal((n - 1) as nat) + seq!['<', '/', 'v', '>']
        } else {
            seq![]
        }
    }
}

/// `(?:raw)` followed by one `|<v>i</v>` alternative per set flag `i`,
/// ascending.
pub open spec fn augmented_source(raw: Seq<char>, flags: Seq<bool>) -> Seq<char> {
    seq!['(', '?', ':'] + raw + seq![')'] + hit_alternatives(flags, flags.len() as int)
}

pub enum AugmentResult {
    /// hit_set empty + user pattern compiled cleanly.
    PatternOnly(CompiledRegex),
    /// User pattern + sst hit alternatives (<v>idx</v>).
    Augmented(CompiledRegex),
    /// hit_set too large to encode; decide() treats "hit_set non-empty" as parse.
    TooManyHits,
    /// User pattern can't be folded into an unanchored regex; skip fast-path
    /// (everything goes to the full-parse path).
    Bypass,
}

/// `r` is the regex built from (`source`, `insensitive`) when that
/// compiles, else `Bypass`; built with `make`.
pub open spec fn built_as(r: AugmentResult, source: Seq<char>, insensitive: bool, augmented: bool) -> bool {
    if regex_compiles(source, insensitive) {
        match r {
            AugmentResult::PatternOnly(re) => !augmented && re.source() == source && re.ignores_case()
                == insensitive,
            AugmentResult::Augmented(re) => augmented && re.source() == source && re.ignores_case()
                == insensitive,
            _ => false,
        }
    } else {
        r is Bypass
    }
}

/// What `augment` gives for a pattern text `raw` (anchors stripped), a
/// case flag and the sst hit flags.
pub open spec fn augment_result_ok(r: AugmentResult, raw: Seq<char>, insensitive: bool, flags: Seq<bool>) -> bool {
    if has_char(raw, '^') || has_char(raw, '$') {
        r is Bypass
    } else if forall|i: int| 0 <= i < flags.len() ==> !flags[i] {
        built_as(r, raw, insensitive, false)
    } else if count_true(flags) > THRESHOLD {
        r is TooManyHits
    } else {
        built_as(r, augmented_source(raw, flags), insensitive, true)
    }
}

fn build(source: &str, insensitive: bool) -> (r: Option<CompiledRegex>)
    ensures
        r is Some <==> regex_compiles(source@, insensitive),
        r matches Some(re) ==> re.source() == source@ && re.ignores_case() == insensitive,
{
    match compile_regex(source, insensitive) {
        Ok(re) => Some(re),
        Err(_) => None,
    }
}

/// Build an augmented regex from (user pattern, sst hit set). The regex is
/// unanchored (one leading `^` and trailing `$` are dropped) and follows the
/// user pattern's case mode. An anchor that survives the strip (as in a
/// multi-pattern join `(?:^42$)|(?:^99$)`) would bind to the whole sheet
/// xml and skip sheets that match, so it bypasses the screen.
pub fn augment(pattern: &Pattern, hit_set: &HitSet) -> (r: AugmentResult)
    ensures
        augment_result_ok(r, stripped(pattern.raw_text()), pattern.ignores_case(), hit_set.flags()),
{
    let raw = strip_anchors(pattern.raw());
    let case_insensitive = pattern.is_case_insensitive();
    if contains_char(raw.as_str(), '^') || contains_char(raw.as_str(), '$') {
        return AugmentResult::Bypass;
    }
    if hit_set.is_empty() {
        return match build(raw.as_str(), case_insensitive) {
            Some(r) => AugmentResult::PatternOnly(r),
            None => AugmentResult::Bypass,
        };
    }
    if hit_set.count() > THRESHOLD {
        return AugmentResult::TooManyHits;
    }
    let ghost flags = hit_set.flags();
    let mut alt = String::new();
    alt.push('(');
    alt.push('?');
    alt.push(':');
    alt.append(raw.as_str());
    alt.push(')');
    let ghost head = alt@;
    let mut i: usize = 0;
    while i < hit_set.len()
        invariant
            i <= flags.len(),
            flags == hit_set.flags(),
            alt@ == head + hit_alternatives(flags, i as int),
        decreases flags.len() - i,
    {
        if hit_set.contains(i) {
            alt.push('|');
            alt.push('<');
            alt.push('v');
            alt.push('>');
            push_decimal(&mut alt, i as u128);
            alt.push('<');
            alt.push('/');
            alt.push('v');
            alt.push('>');
        }
        assert(alt@ =~= head + hit_alternatives(flags, i + 1));
        i = i + 1;
    }
    assert(alt@ =~= augmented_source(raw@, flags));
    match build(alt.as_str(), case_insensitive) {
        Some(r) => AugmentResult::Augmented(r),
        None => AugmentResult::Bypass,
    }
}

/// The text a regex screen sees for sheet bytes: the decoded text when the
/// bytes are valid UTF-8, else the empty text.
pub open spec fn screen_text(xml: Seq<u8>) -> Seq<char> {
    if valid_utf8(xml) {
        decode_utf8(xml)
    } else {
        seq![]
    }
}

/// Whether `re` finds a match in the sheet bytes.
pub open spec fn screen_matches(re: CompiledRegex, xml: Seq<u8>) -> bool {
    regex_find_spans(re.source(), re.ignores_case(), screen_text(xml)).len() > 0
}

/// Whether a sheet must be parsed, given its xml bytes and the screen.
pub open spec fn must_parse(xml: Seq<u8>, augmented: AugmentResult) -> bool {
    match augmented {
        AugmentResult::Bypass => true,
        AugmentResult::TooManyHits => true,
        AugmentResult::PatternOnly(re) => screen_matches(re, xml),
        AugmentResult::Augmented(re) => screen_matches(re, xml),
    }
}

fn regex_matches_bytes(r: &CompiledRegex, xml: &[u8]) -> (b: bool)
    ensures
        b == screen_matches(*r, xml@),
{
    let s = match str_from_utf8(xml) {
        Some(s) => s,
        None => {
            proof {
                reveal_strlit("");
                assert(""@ =~= Seq::<char>::empty());
            }
            ""
        },
    };
    regex_is_match(r, s)
}

/// Per-sheet decision: returns true if the sheet must be fully parsed.
/// `PatternOnly` comes only with an empty hit set.
pub fn decide(xml: &[u8], augmented: &AugmentResult, hit_set_empty: bool) -> (r: bool)
    requires
        augmented is PatternOnly ==> hit_set_empty,
    ensures
        r == must_parse(xml@, *augmented),
{
    match augmented {
        AugmentResult::Bypass => true,
        AugmentResult::TooManyHits => true,
        AugmentResult::PatternOnly(r) => regex_matches_bytes(r, xml),
        AugmentResult::Augmented(r) => regex_matches_bytes(r, xml),
    }
}

} // verus!
