//! Cell comments: the pieces of reading `xl/comments*.xml` that compute on
//! the xml text. Which entries to read follows from the sheet's rels, read
//! by the application with the paths computed here.

use vstd::prelude::*;
use vstd::string::StringSliceAdditionalSpecFns;
use vstd::utf8::*;

use crate::reader::sst::{entry_text, entry_text_of, lemma_body_valid};
use crate::reader::xml_scan::{
    attr, attr_value, element_body, for_each_self_closing_tag, for_each_tag, scan_elements,
    scan_self_closing, span_ok, tag_name_ok,
};
use crate::support::{
    drop_chars, has_prefix_chars, replace_first, replace_first_str, seq_contains, str_contains,
    str_from_utf8, str_starts_with, string_concat,
};

verus! {

/// The rels path of a sheet's xml: `worksheets/` becomes
/// `worksheets/_rels/` (first occurrence) and `.rels` is appended.
pub open spec fn rels_path(sheet_xml: Seq<char>) -> Seq<char> {
    replace_first(
        sheet_xml,
        seq!['w', 'o', 'r', 'k', 's', 'h', 'e', 'e', 't', 's', '/'],
        seq!['w', 'o', 'r', 'k', 's', 'h', 'e', 'e', 't', 's', '/', '_', 'r', 'e', 'l', 's', '/'],
    ) + seq!['.', 'r', 'e', 'l', 's']
}

/// The zip path of the rels file of the sheet whose xml is at `sheet_xml`.
pub fn rels_path_for(sheet_xml: &str) -> (r: String)
    ensures
        r@ == rels_path(sheet_xml@),
{
    proof {
        reveal_strlit("worksheets/");
        reveal_strlit("worksheets/_rels/");
        reveal_strlit(".rels");
        assert("worksheets/"@ =~= seq!['w', 'o', 'r', 'k', 's', 'h', 'e', 'e', 't', 's', '/']);
        assert("worksheets/_rels/"@ =~= seq!['w', 'o', 'r', 'k', 's', 'h', 'e', 'e', 't', 's', '/', '_', 'r', 'e', 'l', 's', '/']);
        assert(".rels"@ =~= seq!['.', 'r', 'e', 'l', 's']);
    }
    let replaced = replace_first_str(sheet_xml, "worksheets/", "worksheets/_rels/");
    string_concat(replaced.as_str(), ".rels")
}

/// The zip path of a comments target named in a sheet's rels: `../x`
/// becomes `xl/x`, anything else is taken relative to `xl/worksheets/`.
pub open spec fn comments_path(target: Seq<char>) -> Seq<char> {
    if has_prefix_chars(target, seq!['.', '.', '/']) {
        seq!['x', 'l', '/'] + target.subrange(3, target.len() as int)
    } else {
        seq!['x', 'l', '/', 'w', 'o', 'r', 'k', 's', 'h', 'e', 'e', 't', 's', '/'] + target
    }
}

/// The zip path of the comments xml that a rels target names.
pub fn comments_path_for(target: &str) -> (r: String)
    ensures
        r@ == comments_path(target@),
{
    proof {
        reveal_strlit("../");
        reveal_strlit("xl/");
        reveal_strlit("xl/worksheets/");
        assert("../"@ =~= seq!['.', '.', '/']);
        assert("xl/"@ =~= seq!['x', 'l', '/']);
        assert("xl/worksheets/"@ =~= seq!['x', 'l', '/', 'w', 'o', 'r', 'k', 's', 'h', 'e', 'e', 't', 's', '/']);
    }
    if str_starts_with(target, "../") {
        let rest = drop_chars(target, 3);
        string_concat("xl/", rest.as_str())
    } else {
        string_concat("xl/worksheets/", target)
    }
}

/// The bytes of an ASCII tag or attribute name.
proof fn lemma_name_bytes()
    ensures
        "Relationship".spec_bytes() == seq![82u8, 101u8, 108u8, 97u8, 116u8, 105u8, 111u8, 110u8, 115u8, 104u8, 105u8, 112u8],
        "comment".spec_bytes() == seq![99u8, 111u8, 109u8, 109u8, 101u8, 110u8, 116u8],
{
    reveal_strlit("Relationship");
    reveal_strlit("comment");
    assert(is_ascii_chars("Relationship"@));
    assert(is_ascii_chars("comment"@));
    is_ascii_chars_encode_utf8("Relationship"@);
    is_ascii_chars_encode_utf8("comment"@);
    assert("Relationship".spec_bytes() =~= seq![82u8, 101u8, 108u8, 97u8, 116u8, 105u8, 111u8, 110u8, 115u8, 104u8, 105u8, 112u8]);
    assert("comment".spec_bytes() =~= seq![99u8, 111u8, 109u8, 109u8, 101u8, 110u8, 116u8]);
}

/// Bytes as text when they are valid UTF-8, else the empty text.
pub open spec fn text_or_empty(b: Seq<u8>) -> Seq<char> {
    if valid_utf8(b) {
        decode_utf8(b)
    } else {
        seq![]
    }
}

/// The `Target` of the self-closing `<Relationship .../>` element `e`.
pub open spec fn rel_target(rels: Seq<u8>, e: (int, int)) -> Option<Seq<char>> {
    let attrs = rels.subrange(e.0, e.1 - 1);
    match attr_value(attrs, "Target".spec_bytes()) {
        Some((vs, ve)) => Some(text_or_empty(attrs.subrange(vs, ve))),
        None => None,
    }
}

/// The first target among the first `n` relationships that mentions
/// `comments`.
pub open spec fn first_comments_target(rels: Seq<u8>, elems: Seq<(int, int)>, n: int) -> Option<Seq<char>>
    decreases n,
{
    if n <= 0 {
        None
    } else {
        match first_comments_target(rels, elems, n - 1) {
            Some(t) => Some(t),
            None => match rel_target(rels, elems[n - 1]) {
                Some(t) => if seq_contains(t, seq!['c', 'o', 'm', 'm', 'e', 'n', 't', 's']) {
                    Some(t)
                } else {
                    None
                },
                None => None,
            },
        }
    }
}

proof fn lemma_first_target_stays(rels: Seq<u8>, elems: Seq<(int, int)>, m: int, n: int)
    requires
        0 <= m <= n,
        first_comments_target(rels, elems, m) is Some,
    ensures
        first_comments_target(rels, elems, n) == first_comments_target(rels, elems, m),
    decreases n - m,
{
    if m < n {
        lemma_first_target_stays(rels, elems, m, n - 1);
    }
}

/// The target of a sheet's rels that names its comments xml: the first
/// `Relationship` whose `Target` mentions `comments`.
pub fn comments_target(rels: &str) -> (r: Option<String>)
    ensures
        ({
            let elems = scan_self_closing(rels.spec_bytes(), "Relationship".spec_bytes(), 0);
            match first_comments_target(rels.spec_bytes(), elems, elems.len() as int) {
                Some(t) => r matches Some(s) && s@ == t,
                None => r is None,
            }
        }),
{
    proof {
        lemma_name_bytes();
        reveal_strlit("comments");
        reveal_strlit("");
        assert("comments"@ =~= seq!['c', 'o', 'm', 'm', 'e', 'n', 't', 's']);
        assert(""@ =~= Seq::<char>::empty());
    }
    let bytes = rels.as_bytes();
    let spans = for_each_self_closing_tag(bytes, "Relationship");
    let ghost elems = scan_self_closing(bytes@, "Relationship".spec_bytes(), 0);
    let mut k: usize = 0;
    while k < spans.len()
        invariant
            k <= spans@.len(),
            bytes@ == rels.spec_bytes(),
            "comments"@ == seq!['c', 'o', 'm', 'm', 'e', 'n', 't', 's'],
            ""@ == Seq::<char>::empty(),
            elems == scan_self_closing(bytes@, "Relationship".spec_bytes(), 0),
            spans@.len() == elems.len(),
            forall|i: int| 0 <= i < spans@.len() ==> #[trigger] spans@[i].describes(elems[i]),
            forall|i: int|
                0 <= i < spans@.len() ==> (#[trigger] spans@[i]).attrs_start <= spans@[i].attrs_end
                    && spans@[i].next <= bytes@.len(),
            first_comments_target(bytes@, elems, k as int) is None,
        decreases spans@.len() - k,
    {
        let s = spans[k];
        assert(spans@[k as int].describes(elems[k as int]));
        assert(spans@[k as int].attrs_start <= spans@[k as int].attrs_end);
        assert(s.attrs_start <= s.attrs_end && s.next <= bytes@.len());
        assert(s.attrs_end < s.next);
        {
            let attrs = &bytes[s.attrs_start..s.attrs_end];
            assert(attrs@ =~= bytes@.subrange(elems[k as int].0, elems[k as int].1 - 1));
            if let Some(v) = attr(attrs, "Target") {
                let t: &str = match str_from_utf8(v) {
                    Some(t) => t,
                    None => "",
                };
                assert(rel_target(bytes@, elems[k as int]) == Some(t@));
                if str_contains(t, "comments") {
                    proof {
                        lemma_first_target_stays(bytes@, elems, k + 1, elems.len() as int);
                    }
                    return Some(t.to_owned());
                }
            } else {
                assert(rel_target(bytes@, elems[k as int]) is None);
            }
        }
        k = k + 1;
    }
    None
}

/// The `(sheet, cell, text)` of each comment among the first `n` elements:
/// its `ref` attribute (when present and valid UTF-8) and its `<t>` runs
/// concatenated; comments with empty text are left out.
pub open spec fn comments_of(sheet: Seq<char>, xml: Seq<u8>, elems: Seq<(int, int, int)>, n: int) -> Seq<
    (Seq<char>, Seq<char>, Seq<char>),
>
    decreases n,
{
    if n <= 0 {
        seq![]
    } else {
        let prev = comments_of(sheet, xml, elems, n - 1);
        let e = elems[n - 1];
        let attrs = xml.subrange(e.0, e.1);
        match attr_value(attrs, "ref".spec_bytes()) {
            Some((vs, ve)) => if valid_utf8(attrs.subrange(vs, ve)) {
                let text = entry_text(element_body(xml, e));
                if text.len() > 0 {
                    prev.push((sheet, decode_utf8(attrs.subrange(vs, ve)), text))
                } else {
                    prev
                }
            } else {
                prev
            },
            None => prev,
        }
    }
}

/// Element `e` is a comment that is read: its `ref` is present and valid
/// UTF-8 and its text is not empty.
pub open spec fn comment_read(xml: Seq<u8>, e: (int, int, int)) -> bool {
    let attrs = xml.subrange(e.0, e.1);
    attr_value(attrs, "ref".spec_bytes()) matches Some((vs, ve)) && valid_utf8(attrs.subrange(vs, ve))
        && entry_text(element_body(xml, e)).len() > 0
}

/// The triple a read comment gives.
pub open spec fn comment_triple(sheet: Seq<char>, xml: Seq<u8>, e: (int, int, int)) -> (Seq<char>, Seq<char>, Seq<char>) {
    let attrs = xml.subrange(e.0, e.1);
    let v = attr_value(attrs, "ref".spec_bytes()).unwrap();
    (sheet, decode_utf8(attrs.subrange(v.0, v.1)), entry_text(element_body(xml, e)))
}

proof fn lemma_comment_step(sheet: Seq<char>, xml: Seq<u8>, elems: Seq<(int, int, int)>, k: int)
    requires
        0 <= k,
    ensures
        comment_read(xml, elems[k]) ==> comments_of(sheet, xml, elems, k + 1) == comments_of(sheet, xml, elems, k).push(
            comment_triple(sheet, xml, elems[k]),
        ),
        !comment_read(xml, elems[k]) ==> comments_of(sheet, xml, elems, k + 1) == comments_of(sheet, xml, elems, k),
{
}

proof fn lemma_comment_prefix(sheet: Seq<char>, xml: Seq<u8>, elems: Seq<(int, int, int)>, k: int, n: int)
    requires
        0 <= k <= n,
    ensures
        comments_of(sheet, xml, elems, k).len() <= comments_of(sheet, xml, elems, n).len(),
        comments_of(sheet, xml, elems, k) == comments_of(sheet, xml, elems, n).subrange(
            0,
            comments_of(sheet, xml, elems, k).len() as int,
        ),
    decreases n - k,
{
    let ck = comments_of(sheet, xml, elems, k);
    if k == n {
        assert(ck =~= ck.subrange(0, ck.len() as int));
    } else {
        lemma_comment_prefix(sheet, xml, elems, k + 1, n);
        lemma_comment_step(sheet, xml, elems, k);
        let ck1 = comments_of(sheet, xml, elems, k + 1);
        let cn = comments_of(sheet, xml, elems, n);
        assert(ck =~= cn.subrange(0, ck.len() as int)) by {
            assert(ck =~= ck1.subrange(0, ck.len() as int));
        }
    }
}

/// Every comment counts, whatever comes before it: the comments of the
/// first `k` elements are a prefix of those of the first `n`; a comment
/// that is read adds exactly one triple, `(sheet, ref, text)`, right after
/// them; any other element adds nothing.
pub proof fn lemma_every_comment_counts(sheet: Seq<char>, xml: Seq<u8>, elems: Seq<(int, int, int)>, n: int)
    requires
        0 <= n <= elems.len(),
    ensures
        forall|k: int|
            0 <= k <= n ==> #[trigger] comments_of(sheet, xml, elems, k) == comments_of(sheet, xml, elems, n).subrange(
                0,
                comments_of(sheet, xml, elems, k).len() as int,
            ),
        forall|k: int|
            0 <= k < n && comment_read(xml, #[trigger] elems[k]) ==> {
                &&& comments_of(sheet, xml, elems, k + 1).len() == comments_of(sheet, xml, elems, k).len() + 1
                &&& comments_of(sheet, xml, elems, n)[comments_of(sheet, xml, elems, k).len() as int]
                    == comment_triple(sheet, xml, elems[k])
            },
        forall|k: int|
            0 <= k < n && !comment_read(xml, #[trigger] elems[k]) ==> comments_of(sheet, xml, elems, k + 1)
                == comments_of(sheet, xml, elems, k),
{
    let cn = comments_of(sheet, xml, elems, n);
    assert forall|k: int|
        0 <= k <= n implies #[trigger] comments_of(sheet, xml, elems, k) == cn.subrange(
        0,
        comments_of(sheet, xml, elems, k).len() as int,
    ) by {
        lemma_comment_prefix(sheet, xml, elems, k, n);
    }
    assert forall|k: int|
        0 <= k < n && comment_read(xml, #[trigger] elems[k]) implies {
            &&& comments_of(sheet, xml, elems, k + 1).len() == comments_of(sheet, xml, elems, k).len() + 1
            &&& cn[comments_of(sheet, xml, elems, k).len() as int] == comment_triple(sheet, xml, elems[k])
        } by {
        lemma_comment_step(sheet, xml, elems, k);
        lemma_comment_prefix(sheet, xml, elems, k + 1, n);
        let ck = comments_of(sheet, xml, elems, k);
        let ck1 = comments_of(sheet, xml, elems, k + 1);
        assert(ck1[ck.len() as int] == comment_triple(sheet, xml, elems[k]));
        assert(cn.subrange(0, ck1.len() as int)[ck.len() as int] == cn[ck.len() as int]);
    }
    assert forall|k: int|
        0 <= k < n && !comment_read(xml, #[trigger] elems[k]) implies comments_of(sheet, xml, elems, k + 1)
            == comments_of(sheet, xml, elems, k) by {
        lemma_comment_step(sheet, xml, elems, k);
    }
}

/// The views of comment triples.
pub open spec fn triple_views(v: Seq<(String, String, String)>) -> Seq<(Seq<char>, Seq<char>, Seq<char>)> {
    v.map_values(|t: (String, String, String)| (t.0@, t.1@, t.2@))
}

/// The comments of one sheet's comments xml, as `(sheet, cell, text)`.
pub fn parse_comments(sheet: &str, xml: &str) -> (r: Vec<(String, String, String)>)
    ensures
        ({
            let elems = scan_elements(xml.spec_bytes(), "comment".spec_bytes(), 0);
            triple_views(r@) == comments_of(sheet@, xml.spec_bytes(), elems, elems.len() as int)
        }),
{
    proof {
        lemma_name_bytes();
        encode_utf8_valid_utf8(xml@);
    }
    let bytes = xml.as_bytes();
    let spans = for_each_tag(bytes, "comment");
    let ghost elems = scan_elements(bytes@, "comment".spec_bytes(), 0);
    let mut out: Vec<(String, String, String)> = Vec::new();
    let mut k: usize = 0;
    while k < spans.len()
        invariant
            k <= spans@.len(),
            bytes@ == xml.spec_bytes(),
            valid_utf8(bytes@),
            elems == scan_elements(bytes@, "comment".spec_bytes(), 0),
            "comment".spec_bytes().len() == 7,
            spans@.len() == elems.len(),
            forall|i: int| 0 <= i < spans@.len() ==> #[trigger] spans@[i].describes(elems[i], 7),
            forall|i: int| 0 <= i < spans@.len() ==> span_ok(bytes@, #[trigger] spans@[i]),
            triple_views(out@) == comments_of(sheet@, bytes@, elems, k as int),
        decreases spans@.len() - k,
    {
        let s = spans[k];
        assert(spans@[k as int].describes(elems[k as int], 7));
        assert(span_ok(bytes@, spans@[k as int]));
        let attrs = &bytes[s.attrs_start..s.attrs_end];
        assert(attrs@ =~= bytes@.subrange(elems[k as int].0, elems[k as int].1));
        if let Some(rf) = attr(attrs, "ref") {
            if let Some(cell) = str_from_utf8(rf) {
                proof {
                    lemma_body_valid(bytes@, s);
                }
                let body = &bytes[s.body_start..s.body_end];
                assert(body@ =~= element_body(bytes@, elems[k as int]));
                let text = entry_text_of(body);
                if text.unicode_len() > 0 {
                    let ghost before = out@;
                    out.push((sheet.to_owned(), cell.to_owned(), text));
                    assert(triple_views(out@) =~= triple_views(before).push((sheet@, cell@, text@)));
                }
            }
        }
        k = k + 1;
    }
    out
}

} // verus!
