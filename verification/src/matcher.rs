//! Compiled regex pattern + smart-case inference.

use vstd::prelude::*;
use vstd::string::StringSliceAdditionalSpecFns;
use vstd::utf8::*;

verus! {

#[verifier::external_type_specification]
#[verifier::external_body]
pub struct ExRegex(regex::Regex);

#[verifier::external_type_specification]
#[verifier::external_body]
pub struct ExRegexError(regex::Error);

/// Whether `RegexBuilder::new(source).case_insensitive(insensitive)
/// .unicode(true).build()` succeeds.
pub uninterp spec fn regex_compiles(source: Seq<char>, insensitive: bool) -> bool;

/// The byte ranges that `Regex::find_iter` yields on `haystack` for the
/// regex built from (`source`, `insensitive`).
pub uninterp spec fn regex_find_spans(source: Seq<char>, insensitive: bool, haystack: Seq<char>) -> Seq<
    (int, int),
>;

/// The byte ranges of every capture group (group 0 first) of each match
/// that `Regex::captures_iter` yields on `haystack`.
pub uninterp spec fn regex_capture_spans(
    source: Seq<char>,
    insensitive: bool,
    haystack: Seq<char>,
) -> Seq<Seq<Option<(int, int)>>>;

/// A byte range `[s, e)` of `bytes` that starts and ends on character
/// boundaries.
pub open spec fn char_span(bytes: Seq<u8>, s: int, e: int) -> bool {
    &&& 0 <= s <= e <= bytes.len()
    &&& is_char_boundary(bytes, s)
    &&& is_char_boundary(bytes, e)
}

/// Successive, non-overlapping character-boundary ranges of `bytes`.
pub open spec fn spans_ok(bytes: Seq<u8>, spans: Seq<(usize, usize)>) -> bool {
    &&& forall|k: int|
        0 <= k < spans.len() ==> char_span(bytes, (#[trigger] spans[k]).0 as int, spans[k].1 as int)
    &&& forall|k: int| 0 <= k < spans.len() - 1 ==> (#[trigger] spans[k]).1 <= spans[k + 1].0
}

/// Regex meta characters, as `regex_syntax::is_meta_character` lists them.
pub open spec fn is_meta_character(c: char) -> bool {
    c == '\\' || c == '.' || c == '+' || c == '*' || c == '?' || c == '(' || c == ')' || c == '|'
        || c == '[' || c == ']' || c == '{' || c == '}' || c == '^' || c == '$' || c == '#'
        || c == '&' || c == '-' || c == '~'
}

/// `regex::escape`: a backslash before every meta character.
pub open spec fn escape_text(text: Seq<char>) -> Seq<char>
    decreases text.len(),
{
    if text.len() == 0 {
        seq![]
    } else {
        let rest = escape_text(text.drop_last());
        if is_meta_character(text.last()) {
            rest.push('\\').push(text.last())
        } else {
            rest.push(text.last())
        }
    }
}

/// `regex::escape`: prefixes every meta character with a backslash.
#[verifier::external_body]
fn escape(text: &str) -> (r: String)
    ensures
        r@ == escape_text(text@),
{
    regex::escape(text)
}

/// `Regex::clone`; nothing is stated of the copy here: `CompiledRegex`
/// carries the source and case flag that the copy was built from.
pub assume_specification[ <regex::Regex as Clone>::clone ](r: &regex::Regex) -> regex::Regex;

/// A regex together with the source text and case flag it was built from.
#[derive(Debug)]
pub struct CompiledRegex {
    regex: regex::Regex,
    source: String,
    insensitive: bool,
}

impl CompiledRegex {
    /// The source text the regex was built from.
    pub closed spec fn source(&self) -> Seq<char> {
        self.source@
    }

    /// Whether the regex was built case-insensitive.
    pub closed spec fn ignores_case(&self) -> bool {
        self.insensitive
    }
}

impl CompiledRegex {
    /// Whether the regex matches somewhere in `haystack`.
    pub fn is_match(&self, haystack: &str) -> (r: bool)
        ensures
            r == (regex_find_spans(self.source(), self.ignores_case(), haystack@).len() > 0),
    {
        regex_is_match(self, haystack)
    }
}

impl Clone for CompiledRegex {
    fn clone(&self) -> (r: Self)
        ensures
            r.source() == self.source(),
            r.ignores_case() == self.ignores_case(),
    {
        CompiledRegex {
            regex: self.regex.clone(),
            source: self.source.clone(),
            insensitive: self.insensitive,
        }
    }
}

/// `RegexBuilder::new(source).case_insensitive(insensitive).unicode(true)
/// .build()`; the result remembers its source and case flag.
#[verifier::external_body]
pub(crate) fn compile_regex(source: &str, insensitive: bool) -> (r: Result<CompiledRegex, regex::Error>)
    ensures
        r is Ok <==> regex_compiles(source@, insensitive),
        r matches Ok(re) ==> re.source() == source@ && re.ignores_case() == insensitive,
{
    match regex::RegexBuilder::new(source).case_insensitive(insensitive).unicode(true).build() {
        Ok(regex) => Ok(CompiledRegex { regex, source: source.to_string(), insensitive }),
        Err(e) => Err(e),
    }
}

/// `Regex::find_iter`, each match as its (start, end) byte range. Per the
/// regex documentation the matches are successive and non-overlapping and
/// their offsets fall on character boundaries.
#[verifier::external_body]
pub(crate) fn regex_find_all(re: &CompiledRegex, haystack: &str) -> (r: Vec<(usize, usize)>)
    ensures
        r@.len() == regex_find_spans(re.source(), re.ignores_case(), haystack@).len(),
        forall|k: int|
            0 <= k < r@.len() ==> (#[trigger] r@[k]).0 == regex_find_spans(
                re.source(),
                re.ignores_case(),
                haystack@,
            )[k].0 && r@[k].1 == regex_find_spans(re.source(), re.ignores_case(), haystack@)[k].1,
        spans_ok(haystack.spec_bytes(), r@),
{
    re.regex.find_iter(haystack).map(|m| (m.start(), m.end())).collect()
}

/// `Regex::is_match`: true exactly when `find_iter` yields a match.
#[verifier::external_body]
pub(crate) fn regex_is_match(re: &CompiledRegex, haystack: &str) -> (r: bool)
    ensures
        r == (regex_find_spans(re.source(), re.ignores_case(), haystack@).len() > 0),
{
    re.regex.is_match(haystack)
}

/// `Regex::captures_iter`, each capture group as an optional byte range.
/// Per the regex documentation every range falls on character boundaries.
#[verifier::external_body]
pub(crate) fn regex_captures_all(re: &CompiledRegex, haystack: &str) -> (r: Vec<Vec<Option<(usize, usize)>>>)
    ensures
        r@.len() == regex_capture_spans(re.source(), re.ignores_case(), haystack@).len(),
        forall|k: int|
            #![trigger r@[k]]
            0 <= k < r@.len() ==> {
                let groups = regex_capture_spans(re.source(), re.ignores_case(), haystack@)[k];
                &&& r@[k]@.len() == groups.len()
                &&& forall|g: int|
                    0 <= g < groups.len() ==> match #[trigger] groups[g] {
                        None => r@[k]@[g] is None,
                        Some((s, e)) => r@[k]@[g] matches Some(p) && p.0 == s && p.1 == e && char_span(
                            haystack.spec_bytes(),
                            s,
                            e,
                        ),
                    }
            },
{
    re.regex.captures_iter(haystack).map(
        |c| c.iter().map(|m| m.map(|m| (m.start(), m.end()))).collect(),
    ).collect()
}

#[derive(Debug, Clone, Copy, PartialEq, Eq, Structural)]
pub enum CaseMode {
    /// Default: case-insensitive unless pattern contains an uppercase ASCII letter.
    Smart,
    /// `-i` / `--ignore-case`.
    Insensitive,
    /// `-s` / `--case-sensitive`.
    Sensitive,
}

/// The regex text compiled for `raw`: escaped when `fixed_string`, wrapped
/// in `\b(?:...)\b` when `word`.
pub open spec fn effective_source(raw: Seq<char>, fixed_string: bool, word: bool) -> Seq<char> {
    let base = if fixed_string {
        escape_text(raw)
    } else {
        raw
    };
    if word {
        seq!['\\', 'b', '(', '?', ':'] + base + seq![')', '\\', 'b']
    } else {
        base
    }
}

/// `-w` wraps the pattern as it stands after `-F`: escaping applies to the
/// user's pattern alone, never to the `\b(?:`...`)\b` wrapper; `-F` alone
/// is the escaped pattern and neither flag leaves the pattern as given.
pub proof fn lemma_word_wraps_the_escaped_pattern(raw: Seq<char>, fixed_string: bool)
    ensures
        effective_source(raw, fixed_string, true) == seq!['\\', 'b', '(', '?', ':'] + effective_source(
            raw,
            fixed_string,
            false,
        ) + seq![')', '\\', 'b'],
        effective_source(raw, true, true) == seq!['\\', 'b', '(', '?', ':'] + escape_text(raw) + seq![')', '\\', 'b'],
        effective_source(raw, true, false) == escape_text(raw),
        effective_source(raw, false, false) == raw,
{
}

/// True when `s` holds an ASCII uppercase letter.
pub open spec fn has_ascii_upper(s: Seq<char>) -> bool {
    exists|i: int| 0 <= i < s.len() && 'A' <= #[trigger] s[i] <= 'Z'
}

/// Whether matching ignores case: smart case ignores it unless the raw
/// pattern holds an ASCII uppercase letter.
pub open spec fn case_insensitive_for(case: CaseMode, raw: Seq<char>) -> bool {
    match case {
        CaseMode::Insensitive => true,
        CaseMode::Sensitive => false,
        CaseMode::Smart => !has_ascii_upper(raw),
    }
}

#[derive(Debug, Clone)]
pub struct Pattern {
    regex: CompiledRegex,
    raw: String,
}

impl Pattern {
    /// The pattern text as the user gave it.
    pub closed spec fn raw_text(&self) -> Seq<char> {
        self.raw@
    }

    /// The regex text that was compiled.
    pub closed spec fn regex_source(&self) -> Seq<char> {
        self.regex.source()
    }

    /// Whether matching ignores case.
    pub closed spec fn ignores_case(&self) -> bool {
        self.regex.ignores_case()
    }

    /// Byte ranges of the matches in `haystack`.
    pub open spec fn spans(&self, haystack: Seq<char>) -> Seq<(int, int)> {
        regex_find_spans(self.regex_source(), self.ignores_case(), haystack)
    }

    /// Whether `haystack` holds a match.
    pub open spec fn matches(&self, haystack: Seq<char>) -> bool {
        self.spans(haystack).len() > 0
    }

    pub fn compile(raw: &str, case: CaseMode, fixed_string: bool, word: bool) -> (r: Result<
        Self,
        regex::Error,
    >)
        ensures
            r is Ok <==> regex_compiles(
                effective_source(raw@, fixed_string, word),
                case_insensitive_for(case, raw@),
            ),
            r matches Ok(p) ==> {
                &&& p.raw_text() == raw@
                &&& p.regex_source() == effective_source(raw@, fixed_string, word)
                &&& p.ignores_case() == case_insensitive_for(case, raw@)
            },
    {
        let mut effective = if fixed_string {
            escape(raw)
        } else {
            raw.to_owned()
        };
        if word {
            let mut w = String::new();
            w.push('\\');
            w.push('b');
            w.push('(');
            w.push('?');
            w.push(':');
            w.append(effective.as_str());
            w.push(')');
            w.push('\\');
            w.push('b');
            assert(w@ =~= effective_source(raw@, fixed_string, word));
            effective = w;
        }
        let insensitive = match case {
            CaseMode::Insensitive => true,
            CaseMode::Sensitive => false,
            CaseMode::Smart => !contains_ascii_upper(raw),
        };
        match compile_regex(effective.as_str(), insensitive) {
            Ok(regex) => Ok(Pattern { regex, raw: raw.to_owned() }),
            Err(e) => Err(e),
        }
    }

    pub fn is_match(&self, haystack: &str) -> (r: bool)
        ensures
            r == self.matches(haystack@),
    {
        regex_is_match(&self.regex, haystack)
    }

    /// (byte_start, byte_end) of each non-overlapping match.
    pub fn find_iter(&self, haystack: &str) -> (r: Vec<(usize, usize)>)
        ensures
            r@.len() == self.spans(haystack@).len(),
            forall|k: int|
                0 <= k < r@.len() ==> (#[trigger] r@[k]).0 == self.spans(haystack@)[k].0 && r@[k].1
                    == self.spans(haystack@)[k].1,
            spans_ok(haystack.spec_bytes(), r@),
    {
        regex_find_all(&self.regex, haystack)
    }

    pub fn raw(&self) -> (r: &str)
        ensures
            r@ == self.raw_text(),
    {
        self.raw.as_str()
    }

    /// Whether matching ignores case.
    pub fn is_case_insensitive(&self) -> (r: bool)
        ensures
            r == self.ignores_case(),
    {
        self.regex.insensitive
    }
}

fn contains_ascii_upper(s: &str) -> (r: bool)
    ensures
        r == has_ascii_upper(s@),
{
    for c in it: s.chars()
        invariant
            it.seq() == s@,
            forall|i: int| 0 <= i < it.index() ==> !('A' <= #[trigger] s@[i] <= 'Z'),
    {
        assert(c == s@[it.index() as int]);
        if 'A' <= c && c <= 'Z' {
            return true;
        }
    }
    false
}

} // verus!
