//! Hand-rolled XML byte scanner for the small xlsx subgrammar
//! (`<si>...<t>...</t>...</si>`, `<comment ref="..." />`,
//! `Relationship Target="..."`).
//!
//! Behaviour is deliberately a strict subset of a real XML parser:
//! - `for_each_tag` does not match self-closing `<TAG/>`;
//! - on nested same-name tags the FIRST `</TAG>` closes (lazy match);
//! - bodies are returned verbatim, callers unescape;
//! - `<tag` must be followed by one of space, tab, LF, CR, `>` or `/`, so
//!   `tag="si"` does not collide with `<sst>`.

use vstd::prelude::*;
use vstd::string::StringSliceAdditionalSpecFns;
use vstd::utf8::*;

use crate::support::string_from_utf8;

verus! {

/// True when `needle` occurs in `hay` starting at byte `i`.
pub open spec fn occurs_at(hay: Seq<u8>, needle: Seq<u8>, i: int) -> bool {
    0 <= i && i + needle.len() <= hay.len() && hay.subrange(i, i + needle.len()) == needle
}

/// `memchr::memchr`: the index of the first occurrence of `needle`.
#[verifier::external_body]
fn find_byte(needle: u8, haystack: &[u8]) -> (r: Option<usize>)
    ensures
        match r {
            Some(i) => i < haystack@.len() && haystack@[i as int] == needle && forall|j: int|
                0 <= j < i ==> haystack@[j] != needle,
            None => forall|j: int| 0 <= j < haystack@.len() ==> haystack@[j] != needle,
        },
{
    memchr::memchr(needle, haystack)
}

/// `memchr::memmem::find`: the index of the first occurrence of `needle`.
#[verifier::external_body]
pub(crate) fn find_bytes(haystack: &[u8], needle: &[u8]) -> (r: Option<usize>)
    ensures
        match r {
            Some(i) => occurs_at(haystack@, needle@, i as int) && forall|j: int|
                0 <= j < i ==> !occurs_at(haystack@, needle@, j),
            None => forall|j: int| !occurs_at(haystack@, needle@, j),
        },
{
    memchr::memmem::find(haystack, needle)
}

/// Index of the first occurrence of byte `b` at or after `pos`.
pub open spec fn first_byte_from(xml: Seq<u8>, b: u8, pos: int) -> Option<int>
    decreases xml.len() - pos,
{
    if pos < 0 || pos >= xml.len() {
        None
    } else if xml[pos] == b {
        Some(pos)
    } else {
        first_byte_from(xml, b, pos + 1)
    }
}

/// Index of the first occurrence of `needle` at or after `pos`.
pub open spec fn first_occurrence_from(xml: Seq<u8>, needle: Seq<u8>, pos: int) -> Option<int>
    decreases xml.len() + 1 - pos,
{
    if pos < 0 || pos > xml.len() {
        None
    } else if occurs_at(xml, needle, pos) {
        Some(pos)
    } else {
        first_occurrence_from(xml, needle, pos + 1)
    }
}

/// Bytes that may follow `<tag`: space, tab, LF, CR, `>` and `/`.
pub open spec fn is_tag_boundary(b: u8) -> bool {
    b == 32 || b == 9 || b == 10 || b == 13 || b == 62 || b == 47
}

/// `<tag` followed by a boundary byte starts at `lt`.
pub open spec fn opens_at(xml: Seq<u8>, tag: Seq<u8>, lt: int) -> bool {
    &&& 0 <= lt
    &&& lt + 1 + tag.len() < xml.len()
    &&& xml[lt] == 60
    &&& xml.subrange(lt + 1, lt + 1 + tag.len()) == tag
    &&& is_tag_boundary(xml[lt + 1 + tag.len()])
}

/// Index of the first `<tag` opening at or after `pos`.
pub open spec fn first_open_from(xml: Seq<u8>, tag: Seq<u8>, pos: int) -> Option<int>
    decreases xml.len() - pos,
{
    if pos < 0 || pos >= xml.len() {
        None
    } else if opens_at(xml, tag, pos) {
        Some(pos)
    } else {
        first_open_from(xml, tag, pos + 1)
    }
}

/// The closing marker `</tag>`.
pub open spec fn closing_marker(tag: Seq<u8>) -> Seq<u8> {
    seq![60u8, 47u8] + tag + seq![62u8]
}

/// The next `<tag attrs>body</tag>` element at or after `pos`, as the
/// triple (start of attrs, index of the `>` ending the open tag, index of
/// the closing marker). Self-closing `<tag .../>` elements are skipped; the
/// scan ends when a `>` or a closing marker is missing.
pub open spec fn next_element(xml: Seq<u8>, tag: Seq<u8>, pos: int) -> Option<(int, int, int)>
    decreases xml.len() - pos,
{
    match first_open_from(xml, tag, pos) {
        None => None,
        Some(lt) => {
            let b = lt + 1 + tag.len();
            match first_byte_from(xml, 62, b) {
                None => None,
                Some(gt) => if xml[gt - 1] == 47 {
                    if pos <= lt < gt < xml.len() {
                        next_element(xml, tag, gt + 1)
                    } else {
                        None
                    }
                } else {
                    match first_occurrence_from(xml, closing_marker(tag), gt + 1) {
                        None => None,
                        Some(close) => Some((b, gt, close)),
                    }
                },
            }
        },
    }
}

/// Every element found by repeated `next_element` scans starting at `pos`,
/// each scan resuming right after the previous closing marker.
pub open spec fn scan_elements(xml: Seq<u8>, tag: Seq<u8>, pos: int) -> Seq<(int, int, int)>
    decreases xml.len() - pos,
{
    match next_element(xml, tag, pos) {
        None => seq![],
        Some(e) => {
            let next = e.2 + tag.len() + 3;
            if pos < next <= xml.len() {
                seq![e] + scan_elements(xml, tag, next)
            } else {
                seq![]
            }
        },
    }
}

/// The body bytes of the element triple `e` of `xml`.
pub open spec fn element_body(xml: Seq<u8>, e: (int, int, int)) -> Seq<u8> {
    xml.subrange(e.1 + 1, e.2)
}

/// Byte ranges of one element found in an xml buffer.
#[derive(Clone, Copy, Debug, PartialEq, Eq)]
pub struct TagSpan {
    /// First byte after `<tag`.
    pub attrs_start: usize,
    /// The `>` that ends the open tag (exclusive end of the attributes).
    pub attrs_end: usize,
    /// First byte of the body (one past the `>`).
    pub body_start: usize,
    /// Start of the closing marker (exclusive end of the body).
    pub body_end: usize,
    /// First byte after the closing marker.
    pub next: usize,
}

/// The span's `>` and `<` delimiters are where it says, in order, inside
/// `xml`.
pub open spec fn span_ok(xml: Seq<u8>, s: TagSpan) -> bool {
    &&& s.attrs_start <= s.attrs_end
    &&& s.body_start == s.attrs_end + 1
    &&& s.body_start <= s.body_end < s.next <= xml.len()
    &&& xml[s.attrs_end as int] == 62
    &&& xml[s.body_end as int] == 60
}

impl TagSpan {
    /// This span describes the element triple `e` of a tag `tag_len` bytes long.
    pub open spec fn describes(self, e: (int, int, int), tag_len: int) -> bool {
        &&& self.attrs_start == e.0
        &&& self.attrs_end == e.1
        &&& self.body_start == e.1 + 1
        &&& self.body_end == e.2
        &&& self.next == e.2 + tag_len + 3
    }
}

proof fn lemma_first_byte_skip(xml: Seq<u8>, b: u8, pos: int, k: int)
    requires
        0 <= pos <= k,
        forall|j: int| pos <= j < k && j < xml.len() ==> xml[j] != b,
    ensures
        first_byte_from(xml, b, pos) == first_byte_from(xml, b, k),
    decreases k - pos,
{
    if pos < k {
        lemma_first_byte_skip(xml, b, pos + 1, k);
    }
}

proof fn lemma_first_byte_bounds(xml: Seq<u8>, b: u8, pos: int)
    requires
        0 <= pos,
    ensures
        first_byte_from(xml, b, pos) matches Some(i) ==> pos <= i < xml.len() && xml[i] == b
            && forall|j: int| pos <= j < i ==> xml[j] != b,
        first_byte_from(xml, b, pos) is None ==> forall|j: int| pos <= j < xml.len() ==> xml[j] != b,
    decreases xml.len() - pos,
{
    if 0 <= pos < xml.len() && xml[pos] != b {
        lemma_first_byte_bounds(xml, b, pos + 1);
    }
}

proof fn lemma_first_occurrence_skip(xml: Seq<u8>, needle: Seq<u8>, pos: int, k: int)
    requires
        0 <= pos <= k,
        forall|j: int| pos <= j < k ==> !occurs_at(xml, needle, j),
    ensures
        first_occurrence_from(xml, needle, pos) == first_occurrence_from(xml, needle, k),
    decreases k - pos,
{
    if pos < k {
        lemma_first_occurrence_skip(xml, needle, pos + 1, k);
    }
}

proof fn lemma_first_occurrence_none(xml: Seq<u8>, needle: Seq<u8>, pos: int)
    requires
        0 <= pos,
        forall|j: int| pos <= j ==> !occurs_at(xml, needle, j),
    ensures
        first_occurrence_from(xml, needle, pos) is None,
    decreases xml.len() + 1 - pos,
{
    if pos <= xml.len() {
        lemma_first_occurrence_none(xml, needle, pos + 1);
    }
}

proof fn lemma_first_occurrence_bounds(xml: Seq<u8>, needle: Seq<u8>, pos: int)
    requires
        0 <= pos,
    ensures
        first_occurrence_from(xml, needle, pos) matches Some(i) ==> pos <= i && occurs_at(
            xml,
            needle,
            i,
        ),
    decreases xml.len() + 1 - pos,
{
    if 0 <= pos <= xml.len() && !occurs_at(xml, needle, pos) {
        lemma_first_occurrence_bounds(xml, needle, pos + 1);
    }
}

proof fn lemma_first_open_skip(xml: Seq<u8>, tag: Seq<u8>, pos: int, k: int)
    requires
        0 <= pos <= k,
        forall|j: int| pos <= j < k ==> !opens_at(xml, tag, j),
    ensures
        first_open_from(xml, tag, pos) == first_open_from(xml, tag, k),
    decreases k - pos,
{
    if pos < k {
        lemma_first_open_skip(xml, tag, pos + 1, k);
    }
}

proof fn lemma_first_open_none(xml: Seq<u8>, tag: Seq<u8>, pos: int)
    requires
        0 <= pos,
        forall|j: int| pos <= j ==> !opens_at(xml, tag, j),
    ensures
        first_open_from(xml, tag, pos) is None,
    decreases xml.len() - pos,
{
    if pos < xml.len() {
        lemma_first_open_none(xml, tag, pos + 1);
    }
}

proof fn lemma_first_open_bounds(xml: Seq<u8>, tag: Seq<u8>, pos: int)
    requires
        0 <= pos,
    ensures
        first_open_from(xml, tag, pos) matches Some(i) ==> pos <= i && opens_at(xml, tag, i),
    decreases xml.len() - pos,
{
    if 0 <= pos < xml.len() && !opens_at(xml, tag, pos) {
        lemma_first_open_bounds(xml, tag, pos + 1);
    }
}

/// `</tag>` written into the caller's buffer, which must have room for it.
fn write_closing_marker<'b>(tag: &str, buf: &'b mut [u8]) -> (r: &'b [u8])
    requires
        tag.spec_bytes().len() + 3 <= old(buf)@.len(),
    ensures
        r@ == closing_marker(tag.spec_bytes()),
{
    let tag_bytes = tag.as_bytes();
    let n = tag_bytes.len() + 3;
    buf[0] = 60u8;
    buf[1] = 47u8;
    let mut i: usize = 0;
    while i < tag_bytes.len()
        invariant
            i <= tag_bytes@.len(),
            tag_bytes@ == tag.spec_bytes(),
            n == tag_bytes@.len() + 3,
            buf@.len() == old(buf)@.len(),
            n <= buf@.len(),
            buf@[0] == 60u8,
            buf@[1] == 47u8,
            forall|j: int| 0 <= j < i ==> buf@[j + 2] == tag_bytes@[j],
        decreases tag_bytes@.len() - i,
    {
        buf[i + 2] = tag_bytes[i];
        i = i + 1;
    }
    buf[tag_bytes.len() + 2] = 62u8;
    let r: &[u8] = &buf[0..n];
    assert(r@ =~= closing_marker(tag.spec_bytes()));
    r
}

/// `first_byte_from` computed with `memchr`.
fn find_byte_from(xml: &[u8], b: u8, pos: usize) -> (r: Option<usize>)
    requires
        pos <= xml@.len(),
    ensures
        r is None <==> first_byte_from(xml@, b, pos as int) is None,
        r matches Some(i) ==> first_byte_from(xml@, b, pos as int) == Some(i as int),
        r matches Some(i) ==> pos <= i < xml@.len(),
{
    let ghost x = xml@;
    let rest = &xml[pos..xml.len()];
    match find_byte(b, rest) {
        Some(off) => {
            proof {
                assert forall|j: int| pos <= j < pos + off implies x[j] != b by {
                    assert(rest@[j - pos] == x[j]);
                }
                lemma_first_byte_skip(x, b, pos as int, pos + off);
                assert(rest@[off as int] == x[pos + off]);
            }
            Some(pos + off)
        },
        None => {
            proof {
                assert forall|j: int| pos <= j < x.len() implies x[j] != b by {
                    assert(rest@[j - pos] == x[j]);
                }
                lemma_first_byte_skip(x, b, pos as int, x.len() as int);
            }
            None
        },
    }
}

/// `first_occurrence_from` computed with `memchr::memmem`.
fn find_occurrence_from(xml: &[u8], needle: &[u8], pos: usize) -> (r: Option<usize>)
    requires
        pos <= xml@.len(),
    ensures
        r is None <==> first_occurrence_from(xml@, needle@, pos as int) is None,
        r matches Some(i) ==> first_occurrence_from(xml@, needle@, pos as int) == Some(i as int),
        r matches Some(i) ==> pos <= i && occurs_at(xml@, needle@, i as int),
{
    let ghost x = xml@;
    let ghost m = needle@;
    let rest = &xml[pos..xml.len()];
    proof {
        assert forall|j: int| pos <= j implies occurs_at(x, m, j) == occurs_at(
            rest@,
            m,
            j - pos,
        ) by {
            if j + m.len() <= x.len() {
                assert(rest@.subrange(j - pos, j - pos + m.len()) =~= x.subrange(j, j + m.len()));
            }
        }
    }
    match find_bytes(rest, needle) {
        Some(off) => {
            proof {
                assert forall|j: int| pos <= j < pos + off implies !occurs_at(x, m, j) by {
                    assert(!occurs_at(rest@, m, j - pos));
                }
                lemma_first_occurrence_skip(x, m, pos as int, pos + off);
                assert(occurs_at(x, m, pos + off));
            }
            Some(pos + off)
        },
        None => {
            proof {
                assert forall|j: int| pos <= j implies !occurs_at(x, m, j) by {
                    assert(!occurs_at(rest@, m, j - pos));
                }
                lemma_first_occurrence_none(x, m, pos as int);
            }
            None
        },
    }
}

/// `opens_at` for a `<` at `lt`.
fn opens_at_exec(xml: &[u8], tag_bytes: &[u8], lt: usize) -> (r: bool)
    requires
        lt < xml.len(),
        xml@[lt as int] == 60,
    ensures
        r == opens_at(xml@, tag_bytes@, lt as int),
{
    let ghost x = xml@;
    let ghost t = tag_bytes@;
    let after_lt = lt + 1;
    if tag_bytes.len() >= xml.len() - after_lt {
        return false;
    }
    let name_end = after_lt + tag_bytes.len();
    let mut k: usize = 0;
    while k < tag_bytes.len()
        invariant
            k <= t.len(),
            x == xml@,
            t == tag_bytes@,
            after_lt == lt + 1,
            name_end == after_lt + t.len(),
            name_end < x.len(),
            forall|j: int| 0 <= j < k ==> x[after_lt + j] == t[j],
        decreases t.len() - k,
    {
        if xml[after_lt + k] != tag_bytes[k] {
            proof {
                assert(x.subrange(lt + 1, lt + 1 + t.len())[k as int] == x[after_lt + k]);
            }
            return false;
        }
        k = k + 1;
    }
    assert(x.subrange(lt + 1, lt + 1 + t.len()) =~= t);
    let bb = xml[name_end];
    bb == 32u8 || bb == 9u8 || bb == 10u8 || bb == 13u8 || bb == 62u8 || bb == 47u8
}

/// `first_open_from`: the next `<tag` opening at or after `pos`.
fn find_open_from(xml: &[u8], tag_bytes: &[u8], pos: usize) -> (r: Option<usize>)
    requires
        pos <= xml@.len(),
    ensures
        r is None <==> first_open_from(xml@, tag_bytes@, pos as int) is None,
        r matches Some(i) ==> first_open_from(xml@, tag_bytes@, pos as int) == Some(i as int),
        r matches Some(i) ==> pos <= i && opens_at(xml@, tag_bytes@, i as int),
{
    let ghost x = xml@;
    let ghost t = tag_bytes@;
    let mut p = pos;
    while p < xml.len()
        invariant
            x == xml@,
            t == tag_bytes@,
            pos <= p <= x.len(),
            first_open_from(x, t, pos as int) == first_open_from(x, t, p as int),
        decreases x.len() - p,
    {
        let lt = match find_byte_from(xml, 60u8, p) {
            Some(lt) => lt,
            None => {
                proof {
                    lemma_first_byte_bounds(x, 60, p as int);
                    assert forall|j: int| p <= j implies !opens_at(x, t, j) by {}
                    lemma_first_open_none(x, t, p as int);
                }
                return None;
            },
        };
        proof {
            lemma_first_byte_bounds(x, 60, p as int);
            assert forall|j: int| p <= j < lt implies !opens_at(x, t, j) by {}
            lemma_first_open_skip(x, t, p as int, lt as int);
        }
        if opens_at_exec(xml, tag_bytes, lt) {
            return Some(lt);
        }
        proof {
            lemma_first_open_skip(x, t, lt as int, lt + 1);
        }
        p = lt + 1;
    }
    proof {
        lemma_first_open_none(x, t, p as int);
    }
    None
}

/// The next `<tag attrs>body</tag>` element at or after byte `pos`.
pub fn next_tag(xml: &[u8], tag: &str, pos: usize) -> (r: Option<TagSpan>)
    requires
        tag.spec_bytes().len() + 3 <= 16,
    ensures
        match next_element(xml@, tag.spec_bytes(), pos as int) {
            None => r is None,
            Some(e) => r matches Some(s) && s.describes(e, tag.spec_bytes().len() as int),
        },
        r matches Some(s) ==> pos < s.next && span_ok(xml@, s),
{
    let ghost x = xml@;
    let ghost t = tag.spec_bytes();
    let tag_bytes = tag.as_bytes();
    let xlen = xml.len();
    let mut marker_buf = [0u8; 16];
    let open_close = write_closing_marker(tag, &mut marker_buf);
    if pos > xml.len() {
        assert(first_open_from(x, t, pos as int) is None);
        return None;
    }
    let mut p = pos;
    loop
        invariant
            x == xml@,
            xlen == x.len(),
            t == tag_bytes@,
            t == tag.spec_bytes(),
            open_close@ == closing_marker(t),
            p <= x.len(),
            pos <= p,
            next_element(x, t, pos as int) == next_element(x, t, p as int),
        decreases x.len() - p,
    {
        let lt = match find_open_from(xml, tag_bytes, p) {
            Some(lt) => lt,
            None => {
                assert(next_element(x, t, p as int) is None);
                return None;
            },
        };
        let name_end = lt + 1 + tag_bytes.len();
        let gt = match find_byte_from(xml, 62u8, name_end) {
            Some(gt) => gt,
            None => {
                assert(next_element(x, t, p as int) is None);
                return None;
            },
        };
        if xml[gt - 1] == 47u8 {
            proof {
                assert(next_element(x, t, p as int) == next_element(x, t, gt + 1));
            }
            p = gt + 1;
            continue;
        }
        let body_start = gt + 1;
        let close = match find_occurrence_from(xml, open_close, body_start) {
            Some(c) => c,
            None => {
                assert(next_element(x, t, p as int) is None);
                return None;
            },
        };
        assert(next_element(x, t, p as int) == Some((name_end as int, gt as int, close as int)));
        assert(closing_marker(t).len() == open_close@.len());
        proof {
            lemma_first_byte_bounds(x, 62, name_end as int);
            assert(x[close as int] == x.subrange(close as int, close + closing_marker(t).len())[0]);
        }
        return Some(
            TagSpan {
                attrs_start: name_end,
                attrs_end: gt,
                body_start,
                body_end: close,
                next: close + open_close.len(),
            },
        );
    }
}

/// Every `<tag attrs>body</tag>` element of `xml`, in document order.
pub fn for_each_tag(xml: &[u8], tag: &str) -> (r: Vec<TagSpan>)
    requires
        tag.spec_bytes().len() + 3 <= 16,
    ensures
        r@.len() == scan_elements(xml@, tag.spec_bytes(), 0).len(),
        forall|i: int|
            0 <= i < r@.len() ==> #[trigger] r@[i].describes(
                scan_elements(xml@, tag.spec_bytes(), 0)[i],
                tag.spec_bytes().len() as int,
            ),
        forall|i: int| 0 <= i < r@.len() ==> span_ok(xml@, #[trigger] r@[i]),
{
    let ghost x = xml@;
    let ghost t = tag.spec_bytes();
    let mut out: Vec<TagSpan> = Vec::new();
    let ghost mut done: Seq<(int, int, int)> = seq![];
    let mut pos: usize = 0;
    loop
        invariant
            x == xml@,
            t == tag.spec_bytes(),
            t.len() + 3 <= 16,
            pos <= x.len(),
            scan_elements(x, t, 0) == done + scan_elements(x, t, pos as int),
            out@.len() == done.len(),
            forall|i: int| 0 <= i < out@.len() ==> #[trigger] out@[i].describes(done[i], t.len() as int),
            forall|i: int| 0 <= i < out@.len() ==> span_ok(x, #[trigger] out@[i]),
        decreases x.len() - pos,
    {
        match next_tag(xml, tag, pos) {
            None => {
                assert(scan_elements(x, t, pos as int) =~= Seq::<(int, int, int)>::empty());
                assert(done + scan_elements(x, t, pos as int) =~= done);
                return out;
            },
            Some(span) => {
                let ghost e = next_element(x, t, pos as int).unwrap();
                proof {
                    assert(scan_elements(x, t, pos as int) == seq![e] + scan_elements(x, t, span.next as int));
                    assert(done + scan_elements(x, t, pos as int) =~= done.push(e) + scan_elements(
                        x,
                        t,
                        span.next as int,
                    ));
                    done = done.push(e);
                }
                out.push(span);
                pos = span.next;
            },
        }
    }
}

/// The next self-closing `<tag attrs/>` element at or after `pos`, as the
/// pair (start of attrs, index of the `>` that closes it). Elements whose
/// open tag does not end in `/>` are skipped; the scan ends when a `>` is
/// missing.
pub open spec fn next_self_closing(xml: Seq<u8>, tag: Seq<u8>, pos: int) -> Option<(int, int)>
    decreases xml.len() - pos,
{
    match first_open_from(xml, tag, pos) {
        None => None,
        Some(lt) => {
            let b = lt + 1 + tag.len();
            match first_byte_from(xml, 62, b) {
                None => None,
                Some(gt) => if xml[gt - 1] != 47 {
                    if pos <= lt < gt < xml.len() {
                        next_self_closing(xml, tag, gt + 1)
                    } else {
                        None
                    }
                } else {
                    Some((b, gt))
                },
            }
        },
    }
}

/// Every self-closing element found by repeated `next_self_closing` scans.
pub open spec fn scan_self_closing(xml: Seq<u8>, tag: Seq<u8>, pos: int) -> Seq<(int, int)>
    decreases xml.len() - pos,
{
    match next_self_closing(xml, tag, pos) {
        None => seq![],
        Some(e) => if pos < e.1 + 1 <= xml.len() {
            seq![e] + scan_self_closing(xml, tag, e.1 + 1)
        } else {
            seq![]
        },
    }
}

/// Byte range of the attributes of a self-closing element.
#[derive(Clone, Copy, Debug, PartialEq, Eq)]
pub struct AttrSpan {
    /// First byte after `<tag`.
    pub attrs_start: usize,
    /// The `/` of the closing `/>` (exclusive end of the attributes).
    pub attrs_end: usize,
    /// First byte after the `>`.
    pub next: usize,
}

impl AttrSpan {
    /// This span describes the pair (start of attrs, index of `>`).
    pub open spec fn describes(self, e: (int, int)) -> bool {
        &&& self.attrs_start == e.0
        &&& self.attrs_end == e.1 - 1
        &&& self.next == e.1 + 1
    }
}

/// A tag name whose last byte is not `/`.
pub open spec fn tag_name_ok(tag: Seq<u8>) -> bool {
    tag.len() == 0 || tag.last() != 47
}

/// The next self-closing `<tag attrs/>` element at or after byte `pos`.
pub fn next_self_closing_tag(xml: &[u8], tag: &str, pos: usize) -> (r: Option<AttrSpan>)
    requires
        tag_name_ok(tag.spec_bytes()),
    ensures
        match next_self_closing(xml@, tag.spec_bytes(), pos as int) {
            None => r is None,
            Some(e) => r matches Some(s) && s.describes(e),
        },
        r matches Some(s) ==> pos < s.next <= xml@.len() && s.attrs_start <= s.attrs_end,
{
    let ghost x = xml@;
    let ghost t = tag.spec_bytes();
    let tag_bytes = tag.as_bytes();
    let xlen = xml.len();
    if pos > xml.len() {
        assert(first_open_from(x, t, pos as int) is None);
        return None;
    }
    let mut p = pos;
    loop
        invariant
            x == xml@,
            xlen == x.len(),
            t == tag_bytes@,
            t == tag.spec_bytes(),
            tag_name_ok(t),
            p <= x.len(),
            pos <= p,
            next_self_closing(x, t, pos as int) == next_self_closing(x, t, p as int),
        decreases x.len() - p,
    {
        let lt = match find_open_from(xml, tag_bytes, p) {
            Some(lt) => lt,
            None => {
                assert(next_self_closing(x, t, p as int) is None);
                return None;
            },
        };
        let name_end = lt + 1 + tag_bytes.len();
        let gt = match find_byte_from(xml, 62u8, name_end) {
            Some(gt) => gt,
            None => {
                assert(next_self_closing(x, t, p as int) is None);
                return None;
            },
        };
        if xml[gt - 1] != 47u8 {
            proof {
                assert(next_self_closing(x, t, p as int) == next_self_closing(x, t, gt + 1));
            }
            p = gt + 1;
            continue;
        }
        proof {
            if gt == name_end {
                assert(t.len() > 0 ==> x[gt - 1] == x.subrange(lt + 1, lt + 1 + t.len())[t.len() - 1]);
            }
        }
        assert(next_self_closing(x, t, p as int) == Some((name_end as int, gt as int)));
        return Some(AttrSpan { attrs_start: name_end, attrs_end: gt - 1, next: gt + 1 });
    }
}

/// Every self-closing `<tag attrs/>` element of `xml`, in document order.
pub fn for_each_self_closing_tag(xml: &[u8], tag: &str) -> (r: Vec<AttrSpan>)
    requires
        tag_name_ok(tag.spec_bytes()),
    ensures
        r@.len() == scan_self_closing(xml@, tag.spec_bytes(), 0).len(),
        forall|i: int|
            0 <= i < r@.len() ==> #[trigger] r@[i].describes(
                scan_self_closing(xml@, tag.spec_bytes(), 0)[i],
            ),
        forall|i: int|
            0 <= i < r@.len() ==> (#[trigger] r@[i]).attrs_start <= r@[i].attrs_end && r@[i].next
                <= xml@.len(),
{
    let ghost x = xml@;
    let ghost t = tag.spec_bytes();
    let mut out: Vec<AttrSpan> = Vec::new();
    let ghost mut done: Seq<(int, int)> = seq![];
    let mut pos: usize = 0;
    loop
        invariant
            x == xml@,
            t == tag.spec_bytes(),
            tag_name_ok(t),
            pos <= x.len(),
            scan_self_closing(x, t, 0) == done + scan_self_closing(x, t, pos as int),
            out@.len() == done.len(),
            forall|i: int| 0 <= i < out@.len() ==> #[trigger] out@[i].describes(done[i]),
            forall|i: int|
                0 <= i < out@.len() ==> (#[trigger] out@[i]).attrs_start <= out@[i].attrs_end
                    && out@[i].next <= x.len(),
        decreases x.len() - pos,
    {
        match next_self_closing_tag(xml, tag, pos) {
            None => {
                assert(scan_self_closing(x, t, pos as int) =~= Seq::<(int, int)>::empty());
                assert(done + scan_self_closing(x, t, pos as int) =~= done);
                return out;
            },
            Some(span) => {
                let ghost e = next_self_closing(x, t, pos as int).unwrap();
                proof {
                    assert(scan_self_closing(x, t, pos as int) == seq![e] + scan_self_closing(
                        x,
                        t,
                        span.next as int,
                    ));
                    assert(done + scan_self_closing(x, t, pos as int) =~= done.push(e)
                        + scan_self_closing(x, t, span.next as int));
                    done = done.push(e);
                }
                out.push(span);
                pos = span.next;
            },
        }
    }
}

/// Whitespace that may precede an attribute name.
pub open spec fn is_attr_space(b: u8) -> bool {
    b == 32 || b == 9 || b == 10 || b == 13
}

/// `name="` starts at `i` of `attrs`, after the start or a whitespace byte.
pub open spec fn attr_name_at(attrs: Seq<u8>, name: Seq<u8>, i: int) -> bool {
    &&& 0 <= i
    &&& i + name.len() + 2 <= attrs.len()
    &&& (i == 0 || is_attr_space(attrs[i - 1]))
    &&& attrs.subrange(i, i + name.len()) == name
    &&& attrs[i + name.len()] == 61
    &&& attrs[i + name.len() + 1] == 34
}

/// The first index at or after `i` where `name="` starts.
pub open spec fn first_attr_from(attrs: Seq<u8>, name: Seq<u8>, i: int) -> Option<int>
    decreases attrs.len() - i,
{
    if i < 0 || i + name.len() + 2 > attrs.len() {
        None
    } else if attr_name_at(attrs, name, i) {
        Some(i)
    } else {
        first_attr_from(attrs, name, i + 1)
    }
}

/// The byte range of the value of the first `name="..."` attribute; `None`
/// when there is none or its closing quote is missing.
pub open spec fn attr_value(attrs: Seq<u8>, name: Seq<u8>) -> Option<(int, int)> {
    match first_attr_from(attrs, name, 0) {
        None => None,
        Some(i) => {
            let vs = i + name.len() + 2;
            match first_byte_from(attrs, 34, vs) {
                None => None,
                Some(e) => Some((vs, e)),
            }
        },
    }
}

proof fn lemma_first_attr_skip(attrs: Seq<u8>, name: Seq<u8>, i: int, k: int)
    requires
        0 <= i <= k,
        forall|j: int| i <= j < k ==> !attr_name_at(attrs, name, j),
    ensures
        first_attr_from(attrs, name, i) == first_attr_from(attrs, name, k),
    decreases k - i,
{
    if i < k {
        lemma_first_attr_skip(attrs, name, i + 1, k);
    }
}

/// Return the unquoted value of `name="..."` from an attrs slice. Only
/// double-quoted form is recognized. `name` must be preceded by
/// start-of-input or whitespace so that `attr(b"name_full=\"x\"", "name")`
/// does NOT return `Some`.
pub fn attr<'a>(attrs: &'a [u8], name: &str) -> (r: Option<&'a [u8]>)
    ensures
        match attr_value(attrs@, name.spec_bytes()) {
            None => r is None,
            Some((vs, ve)) => r matches Some(v) && v@ == attrs@.subrange(vs, ve),
        },
{
    let ghost a = attrs@;
    let ghost n = name.spec_bytes();
    let name_bytes = name.as_bytes();
    let alen = attrs.len();
    let mut i: usize = 0;
    while name_bytes.len() <= alen && i <= alen - name_bytes.len() && 2 <= alen - name_bytes.len() - i
        invariant
            a == attrs@,
            n == name_bytes@,
            n == name.spec_bytes(),
            alen == a.len(),
            first_attr_from(a, n, 0) == first_attr_from(a, n, i as int),
        decreases a.len() - i,
    {
        let nl = name_bytes.len();
        let prefix_ok = i == 0 || {
            let pb = attrs[i - 1];
            pb == 32u8 || pb == 9u8 || pb == 10u8 || pb == 13u8
        };
        let mut same = true;
        let mut k: usize = 0;
        while k < nl
            invariant
                k <= nl,
                nl == n.len(),
                a == attrs@,
                n == name_bytes@,
                alen == a.len(),
                i + nl + 2 <= alen,
                same == (forall|j: int| 0 <= j < k ==> a[i + j] == n[j]),
            decreases nl - k,
        {
            if attrs[i + k] != name_bytes[k] {
                same = false;
            }
            k = k + 1;
        }
        proof {
            if same {
                assert(a.subrange(i as int, i + n.len()) =~= n);
            } else {
                let j = choose|j: int| 0 <= j < n.len() && a[i + j] != n[j];
                assert(a.subrange(i as int, i + n.len())[j] == a[i + j]);
            }
        }
        if prefix_ok && same && attrs[i + nl] == 61u8 && attrs[i + nl + 1] == 34u8 {
            assert(attr_name_at(a, n, i as int));
            assert(first_attr_from(a, n, i as int) == Some(i as int));
            let value_start = i + nl + 2;
            match find_byte_from(attrs, 34u8, value_start) {
                Some(value_end) => {
                    return Some(&attrs[value_start..value_end]);
                },
                None => {
                    return None;
                },
            }
        }
        proof {
            lemma_first_attr_skip(a, n, i as int, i + 1);
        }
        i = i + 1;
    }
    None
}

/// The byte sequences of the five entities this scanner understands.
pub open spec fn entity_amp() -> Seq<u8> {
    seq![38u8, 97u8, 109u8, 112u8, 59u8]
}

pub open spec fn entity_lt() -> Seq<u8> {
    seq![38u8, 108u8, 116u8, 59u8]
}

pub open spec fn entity_gt() -> Seq<u8> {
    seq![38u8, 103u8, 116u8, 59u8]
}

pub open spec fn entity_quot() -> Seq<u8> {
    seq![38u8, 113u8, 117u8, 111u8, 116u8, 59u8]
}

pub open spec fn entity_apos() -> Seq<u8> {
    seq![38u8, 97u8, 112u8, 111u8, 115u8, 59u8]
}

/// `s` begins with `p`.
pub open spec fn has_prefix(s: Seq<u8>, p: Seq<u8>) -> bool {
    p.len() <= s.len() && s.subrange(0, p.len() as int) == p
}

/// The known entity at the start of `s`, as (replacement byte, length):
/// `&amp;`, `&lt;`, `&gt;`, `&quot;` and `&apos;`, tried in that order.
pub open spec fn entity_at(s: Seq<u8>) -> Option<(u8, int)> {
    if has_prefix(s, entity_amp()) {
        Some((38u8, 5))
    } else if has_prefix(s, entity_lt()) {
        Some((60u8, 4))
    } else if has_prefix(s, entity_gt()) {
        Some((62u8, 4))
    } else if has_prefix(s, entity_quot()) {
        Some((34u8, 6))
    } else if has_prefix(s, entity_apos()) {
        Some((39u8, 6))
    } else {
        None
    }
}

/// Byte-level entity unescaping: each known entity becomes its single byte,
/// every other byte is kept.
pub open spec fn unescape_bytes(b: Seq<u8>) -> Seq<u8>
    decreases b.len(),
{
    if b.len() == 0 {
        seq![]
    } else {
        match entity_at(b) {
            Some((r, n)) => if 0 < n <= b.len() {
                seq![r] + unescape_bytes(b.subrange(n, b.len() as int))
            } else {
                seq![]
            },
            None => seq![b[0]] + unescape_bytes(b.drop_first()),
        }
    }
}

fn starts_with_bytes(s: &[u8], p0: u8, p1: u8, p2: u8, p3: u8, p4: u8, p5: u8, len: usize) -> (r:
    bool)
    requires
        4 <= len <= 6,
    ensures
        r == has_prefix(s@, seq![p0, p1, p2, p3, p4, p5].subrange(0, len as int)),
{
    let ghost p = seq![p0, p1, p2, p3, p4, p5].subrange(0, len as int);
    if s.len() < len {
        return false;
    }
    let ok = s[0] == p0 && s[1] == p1 && s[2] == p2 && s[3] == p3 && (len < 5 || s[4] == p4) && (
    len < 6 || s[5] == p5);
    proof {
        if ok {
            assert(s@.subrange(0, len as int) =~= p);
        } else {
            assert(s@.subrange(0, len as int) != p) by {
                if s@[0] != p0 {
                    assert(s@.subrange(0, len as int)[0] != p[0]);
                } else if s@[1] != p1 {
                    assert(s@.subrange(0, len as int)[1] != p[1]);
                } else if s@[2] != p2 {
                    assert(s@.subrange(0, len as int)[2] != p[2]);
                } else if s@[3] != p3 {
                    assert(s@.subrange(0, len as int)[3] != p[3]);
                } else if s@[4] != p4 {
                    assert(s@.subrange(0, len as int)[4] != p[4]);
                } else {
                    assert(s@.subrange(0, len as int)[5] != p[5]);
                }
            }
        }
    }
    ok
}

/// Try to match a known XML entity starting at `s[0..]`. Returns
/// `(replacement_ascii, bytes_consumed)` on match, else `None`.
fn match_entity(s: &[u8]) -> (r: Option<(u8, usize)>)
    ensures
        match entity_at(s@) {
            None => r is None,
            Some((b, n)) => r == Some((b, n as usize)),
        },
{
    proof {
        assert(seq![38u8, 97u8, 109u8, 112u8, 59u8, 0u8].subrange(0, 5) =~= entity_amp());
        assert(seq![38u8, 108u8, 116u8, 59u8, 0u8, 0u8].subrange(0, 4) =~= entity_lt());
        assert(seq![38u8, 103u8, 116u8, 59u8, 0u8, 0u8].subrange(0, 4) =~= entity_gt());
        assert(seq![38u8, 113u8, 117u8, 111u8, 116u8, 59u8].subrange(0, 6) =~= entity_quot());
        assert(seq![38u8, 97u8, 112u8, 111u8, 115u8, 59u8].subrange(0, 6) =~= entity_apos());
    }
    if starts_with_bytes(s, 38, 97, 109, 112, 59, 0, 5) {
        Some((38, 5))
    } else if starts_with_bytes(s, 38, 108, 116, 59, 0, 0, 4) {
        Some((60, 4))
    } else if starts_with_bytes(s, 38, 103, 116, 59, 0, 0, 4) {
        Some((62, 4))
    } else if starts_with_bytes(s, 38, 113, 117, 111, 116, 59, 6) {
        Some((34, 6))
    } else if starts_with_bytes(s, 38, 97, 112, 111, 115, 59, 6) {
        Some((39, 6))
    } else {
        None
    }
}

proof fn lemma_valid_single_ascii(r: u8)
    requires
        r < 128,
    ensures
        valid_utf8(seq![r]),
{
    let s = seq![r];
    assert(pop_first_scalar(s) =~= Seq::<u8>::empty());
    reveal_with_fuel(valid_utf8, 2);
}

proof fn lemma_valid_drop_ascii(b: Seq<u8>)
    requires
        valid_utf8(b),
        b.len() > 0,
        b[0] < 128,
    ensures
        valid_utf8(b.drop_first()),
{
    assert(pop_first_scalar(b) =~= b.drop_first());
}

proof fn lemma_valid_skip_ascii(b: Seq<u8>, n: int)
    requires
        valid_utf8(b),
        0 <= n <= b.len(),
        forall|j: int| 0 <= j < n ==> b[j] < 128,
    ensures
        valid_utf8(b.subrange(n, b.len() as int)),
    decreases n,
{
    if n == 0 {
        assert(b.subrange(0, b.len() as int) =~= b);
    } else {
        lemma_valid_drop_ascii(b);
        let d = b.drop_first();
        lemma_valid_skip_ascii(d, n - 1);
        assert(d.subrange(n - 1, d.len() as int) =~= b.subrange(n, b.len() as int));
    }
}

proof fn lemma_unescape_copies_prefix(s: Seq<u8>, k: int)
    requires
        0 <= k <= s.len(),
        forall|j: int| 0 <= j < k ==> s[j] != 38,
    ensures
        unescape_bytes(s) == s.subrange(0, k) + unescape_bytes(s.subrange(k, s.len() as int)),
    decreases k,
{
    if k == 0 {
        assert(s.subrange(0, s.len() as int) =~= s);
        assert(s.subrange(0, 0) + unescape_bytes(s) =~= unescape_bytes(s));
    } else {
        assert(entity_at(s) is None);
        let d = s.drop_first();
        lemma_unescape_copies_prefix(d, k - 1);
        assert(d.subrange(k - 1, d.len() as int) =~= s.subrange(k, s.len() as int));
        assert(seq![s[0]] + d.subrange(0, k - 1) =~= s.subrange(0, k));
    }
}

/// Unescaping valid UTF-8 gives valid UTF-8: entities are ASCII and are
/// replaced by ASCII bytes, and no multi-byte character contains `&`.
proof fn lemma_unescape_valid_utf8(b: Seq<u8>)
    requires
        valid_utf8(b),
    ensures
        valid_utf8(unescape_bytes(b)),
    decreases b.len(),
{
    if b.len() == 0 {
        assert(unescape_bytes(b) =~= Seq::<u8>::empty());
    } else {
        match entity_at(b) {
            Some((r, n)) => {
                assert(forall|j: int| 0 <= j < n ==> b[j] < 128) by {
                    assert forall|j: int| 0 <= j < n implies b[j] < 128 by {
                        assert(b[j] == b.subrange(0, n)[j]);
                    }
                }
                lemma_valid_skip_ascii(b, n);
                let rest = b.subrange(n, b.len() as int);
                lemma_unescape_valid_utf8(rest);
                lemma_valid_single_ascii(r);
                valid_utf8_concat(seq![r], unescape_bytes(rest));
            },
            None => {
                if b[0] < 128 {
                    lemma_valid_drop_ascii(b);
                    lemma_unescape_valid_utf8(b.drop_first());
                    lemma_valid_single_ascii(b[0]);
                    valid_utf8_concat(seq![b[0]], unescape_bytes(b.drop_first()));
                } else {
                    let l = length_of_first_scalar(b);
                    assert(forall|j: int| 0 <= j < l ==> b[j] >= 128);
                    lemma_unescape_copies_prefix(b, l);
                    let head = b.subrange(0, l);
                    let rest = b.subrange(l, b.len() as int);
                    assert(rest == pop_first_scalar(b));
                    lemma_unescape_valid_utf8(rest);
                    assert(valid_utf8(head)) by {
                        assert(pop_first_scalar(head) =~= Seq::<u8>::empty());
                        assert(valid_first_scalar(head));
                        reveal_with_fuel(valid_utf8, 2);
                    }
                    valid_utf8_concat(head, unescape_bytes(rest));
                }
            },
        }
    }
}

/// XML entity unescape. Recognizes exactly `&amp;`, `&lt;`, `&gt;`, `&quot;`,
/// `&apos;`. Unknown entities like `&xyz;` pass through verbatim. Input must be
/// UTF-8; the output is then UTF-8 too.
pub fn xml_unescape(bytes: &[u8]) -> (r: String)
    requires
        valid_utf8(bytes@),
    ensures
        r@ == decode_utf8(unescape_bytes(bytes@)),
{
    let ghost b = bytes@;
    let mut buf: Vec<u8> = Vec::new();
    let mut i: usize = 0;
    assert(b.subrange(0, b.len() as int) =~= b);
    assert(buf@ + unescape_bytes(b) =~= unescape_bytes(b));
    while i < bytes.len()
        invariant
            b == bytes@,
            i <= b.len(),
            unescape_bytes(b) == buf@ + unescape_bytes(b.subrange(i as int, b.len() as int)),
        decreases b.len() - i,
    {
        let ghost rest = b.subrange(i as int, b.len() as int);
        if bytes[i] == 38u8 {
            let tail = &bytes[i..bytes.len()];
            if let Some((replacement, consumed)) = match_entity(tail) {
                proof {
                    assert(tail@ =~= rest);
                    assert(rest.subrange(consumed as int, rest.len() as int) =~= b.subrange(
                        i + consumed,
                        b.len() as int,
                    ));
                    assert(buf@.push(replacement) + unescape_bytes(
                        b.subrange(i + consumed, b.len() as int),
                    ) =~= buf@ + unescape_bytes(rest));
                }
                buf.push(replacement);
                i = i + consumed;
                continue;
            }
            proof {
                assert(tail@ =~= rest);
            }
        } else {
            assert(entity_at(rest) is None);
        }
        proof {
            assert(rest.drop_first() =~= b.subrange(i + 1, b.len() as int));
            assert(buf@.push(bytes@[i as int]) + unescape_bytes(b.subrange(i + 1, b.len() as int))
                =~= buf@ + unescape_bytes(rest));
        }
        buf.push(bytes[i]);
        i = i + 1;
    }
    proof {
        assert(b.subrange(i as int, b.len() as int) =~= Seq::<u8>::empty());
        assert(buf@ + unescape_bytes(Seq::<u8>::empty()) =~= buf@);
        lemma_unescape_valid_utf8(b);
    }
    match string_from_utf8(buf) {
        Some(s) => s,
        None => String::new(),
    }
}

/// Bytes without `&` have no entities: unescaping leaves them as they are.
pub proof fn lemma_unescape_plain(b: Seq<u8>)
    requires
        forall|j: int| 0 <= j < b.len() ==> b[j] != 38,
    ensures
        unescape_bytes(b) == b,
{
    lemma_unescape_copies_prefix(b, b.len() as int);
    assert(b.subrange(b.len() as int, b.len() as int) =~= Seq::<u8>::empty());
    assert(b.subrange(0, b.len() as int) =~= b);
    assert(unescape_bytes(b) =~= b);
}

/// The escaped form of one byte: `&`, `<`, `>`, `"` and `'` become their
/// entities, every other byte stays.
pub open spec fn escape_byte(c: u8) -> Seq<u8> {
    if c == 38 {
        entity_amp()
    } else if c == 60 {
        entity_lt()
    } else if c == 62 {
        entity_gt()
    } else if c == 34 {
        entity_quot()
    } else if c == 39 {
        entity_apos()
    } else {
        seq![c]
    }
}

/// XML escaping of a byte string, byte by byte.
pub open spec fn escape_bytes(b: Seq<u8>) -> Seq<u8>
    decreases b.len(),
{
    if b.len() == 0 {
        seq![]
    } else {
        escape_byte(b[0]) + escape_bytes(b.drop_first())
    }
}

proof fn lemma_unescape_escaped_byte(c: u8, rest: Seq<u8>)
    ensures
        unescape_bytes(escape_byte(c) + rest) == seq![c] + unescape_bytes(rest),
{
    let e = escape_byte(c);
    let s = e + rest;
    assert(s.len() > 0);
    assert(s.subrange(e.len() as int, s.len() as int) =~= rest);
    if c == 38 || c == 60 || c == 62 || c == 34 || c == 39 {
        assert(s.subrange(0, e.len() as int) =~= e);
        if c == 38 {
            assert(has_prefix(s, entity_amp()));
        } else if c == 60 {
            assert(s[1] == 108u8);
            assert(!has_prefix(s, entity_amp())) by {
                if has_prefix(s, entity_amp()) {
                    assert(s.subrange(0, 5)[1] == 97u8);
                }
            }
            assert(has_prefix(s, entity_lt()));
        } else if c == 62 {
            assert(s[1] == 103u8);
            assert(!has_prefix(s, entity_amp())) by {
                if has_prefix(s, entity_amp()) {
                    assert(s.subrange(0, 5)[1] == 97u8);
                }
            }
            assert(!has_prefix(s, entity_lt())) by {
                if has_prefix(s, entity_lt()) {
                    assert(s.subrange(0, 4)[1] == 108u8);
                }
            }
            assert(has_prefix(s, entity_gt()));
        } else if c == 34 {
            assert(s[1] == 113u8);
            assert(!has_prefix(s, entity_amp())) by {
                if has_prefix(s, entity_amp()) {
                    assert(s.subrange(0, 5)[1] == 97u8);
                }
            }
            assert(!has_prefix(s, entity_lt())) by {
                if has_prefix(s, entity_lt()) {
                    assert(s.subrange(0, 4)[1] == 108u8);
                }
            }
            assert(!has_prefix(s, entity_gt())) by {
                if has_prefix(s, entity_gt()) {
                    assert(s.subrange(0, 4)[1] == 103u8);
                }
            }
            assert(has_prefix(s, entity_quot()));
        } else {
            assert(s[2] == 112u8);
            assert(!has_prefix(s, entity_amp())) by {
                if has_prefix(s, entity_amp()) {
                    assert(s.subrange(0, 5)[2] == 109u8);
                }
            }
            assert(!has_prefix(s, entity_lt())) by {
                if has_prefix(s, entity_lt()) {
                    assert(s.subrange(0, 4)[1] == 108u8);
                }
            }
            assert(!has_prefix(s, entity_gt())) by {
                if has_prefix(s, entity_gt()) {
                    assert(s.subrange(0, 4)[1] == 103u8);
                }
            }
            assert(!has_prefix(s, entity_quot())) by {
                if has_prefix(s, entity_quot()) {
                    assert(s.subrange(0, 6)[1] == 113u8);
                }
            }
            assert(has_prefix(s, entity_apos()));
        }
    } else {
        assert(s[0] == c);
        assert(!has_prefix(s, entity_amp())) by {
            if has_prefix(s, entity_amp()) {
                assert(s.subrange(0, 5)[0] == 38u8);
            }
        }
        assert(!has_prefix(s, entity_lt())) by {
            if has_prefix(s, entity_lt()) {
                assert(s.subrange(0, 4)[0] == 38u8);
            }
        }
        assert(!has_prefix(s, entity_gt())) by {
            if has_prefix(s, entity_gt()) {
                assert(s.subrange(0, 4)[0] == 38u8);
            }
        }
        assert(!has_prefix(s, entity_quot())) by {
            if has_prefix(s, entity_quot()) {
                assert(s.subrange(0, 6)[0] == 38u8);
            }
        }
        assert(!has_prefix(s, entity_apos())) by {
            if has_prefix(s, entity_apos()) {
                assert(s.subrange(0, 6)[0] == 38u8);
            }
        }
        assert(s.drop_first() =~= rest);
    }
}

/// Unescaping undoes escaping: for any bytes `b`, unescaping the escaped
/// form of `b` gives `b` back.
pub proof fn lemma_unescape_inverts_escape(b: Seq<u8>)
    ensures
        unescape_bytes(escape_bytes(b)) == b,
    decreases b.len(),
{
    if b.len() > 0 {
        lemma_unescape_inverts_escape(b.drop_first());
        lemma_unescape_escaped_byte(b[0], escape_bytes(b.drop_first()));
        assert(seq![b[0]] + b.drop_first() =~= b);
    } else {
        assert(escape_bytes(b) =~= Seq::<u8>::empty());
    }
}

/// For text: `xml_unescape` of the escaped UTF-8 bytes of `s` gives `s`
/// back (the function's result on those bytes is this value).
pub proof fn lemma_xml_unescape_round_trip(s: Seq<char>)
    ensures
        decode_utf8(unescape_bytes(escape_bytes(encode_utf8(s)))) == s,
{
    lemma_unescape_inverts_escape(encode_utf8(s));
    encode_utf8_decode_utf8(s);
}

proof fn lemma_encode_bytes_not_amp(v: u32)
    by (bit_vector)
    requires
        v != 38,
    ensures
        v <= 0x7F ==> leading_byte_width_1(v) != 38,
        leading_byte_width_2(v) != 38,
        leading_byte_width_3(v) != 38,
        leading_byte_width_4(v) != 38,
        last_continuation_byte(v) != 38,
        second_last_continuation_byte(v) != 38,
        third_last_continuation_byte(v) != 38,
{
}

/// The UTF-8 encoding of text without `&` holds no `&` byte.
proof fn lemma_encode_no_amp(s: Seq<char>)
    requires
        forall|i: int| 0 <= i < s.len() ==> s[i] != '&',
    ensures
        forall|j: int| 0 <= j < encode_utf8(s).len() ==> encode_utf8(s)[j] != 38,
    decreases s.len(),
{
    if s.len() > 0 {
        lemma_encode_no_amp(s.drop_first());
        let v = s[0] as u32;
        assert(v != 38) by {
            assert(s[0] != '&');
            char_u32_cast(s[0], v);
            if v == 38 {
                assert((38u32 as char) == '&');
            }
        }
        lemma_encode_bytes_not_amp(v);
        let head = encode_scalar(v);
        let rest = encode_utf8(s.drop_first());
        assert forall|j: int| 0 <= j < head.len() implies head[j] != 38 by {
            if has_width_1_encoding(v) {
                assert(head[j] == leading_byte_width_1(v));
            } else if has_width_2_encoding(v) {
                assert(j == 0 ==> head[j] == leading_byte_width_2(v));
                assert(j == 1 ==> head[j] == last_continuation_byte(v));
            } else if has_width_3_encoding(v) {
                assert(j == 0 ==> head[j] == leading_byte_width_3(v));
                assert(j == 1 ==> head[j] == second_last_continuation_byte(v));
                assert(j == 2 ==> head[j] == last_continuation_byte(v));
            } else {
                assert(j == 0 ==> head[j] == leading_byte_width_4(v));
                assert(j == 1 ==> head[j] == third_last_continuation_byte(v));
                assert(j == 2 ==> head[j] == second_last_continuation_byte(v));
                assert(j == 3 ==> head[j] == last_continuation_byte(v));
            }
        }
        assert forall|j: int| 0 <= j < encode_utf8(s).len() implies encode_utf8(s)[j] != 38 by {
            if j < head.len() {
                assert(encode_utf8(s)[j] == head[j]);
            } else {
                assert(encode_utf8(s)[j] == rest[j - head.len()]);
            }
        }
    }
}

/// Text without `&` has no entities: `xml_unescape` of its UTF-8 bytes
/// gives the text back unchanged.
pub proof fn lemma_unescape_plain_text(s: Seq<char>)
    requires
        forall|i: int| 0 <= i < s.len() ==> s[i] != '&',
    ensures
        decode_utf8(unescape_bytes(encode_utf8(s))) == s,
{
    lemma_encode_no_amp(s);
    lemma_unescape_plain(encode_utf8(s));
    encode_utf8_decode_utf8(s);
}

} // verus!
