//! Contracts for the few std string operations that vstd leaves unspecified.

use vstd::prelude::*;
use vstd::string::StringExecFns;
use vstd::string::StrSliceExecFns;
use vstd::string::StringSliceAdditionalSpecFns;
use vstd::utf8::*;

use crate::cell::{all_digits, digits_value, is_digit};

verus! {

/// `String::push` appends one character: the view grows by that character.
pub assume_specification[ String::push ](s: &mut String, ch: char)
    ensures
        final(s)@ == old(s)@.push(ch),
;

/// `String::from_utf8`: succeeds exactly when the bytes are valid UTF-8,
/// and then holds the characters they encode.
#[verifier::external_body]
pub(crate) fn string_from_utf8(v: Vec<u8>) -> (r: Option<String>)
    ensures
        r is Some <==> valid_utf8(v@),
        r matches Some(s) ==> s@ == decode_utf8(v@),
{
    String::from_utf8(v).ok()
}

/// `std::str::from_utf8`: succeeds exactly when the bytes are valid UTF-8,
/// and then views them as the characters they encode.
#[verifier::external_body]
pub(crate) fn str_from_utf8(v: &[u8]) -> (r: Option<&str>)
    ensures
        r is Some <==> valid_utf8(v@),
        r matches Some(s) ==> s@ == decode_utf8(v@),
{
    std::str::from_utf8(v).ok()
}

/// Two strings hold the same characters.
pub fn str_eq(a: &str, b: &str) -> (r: bool)
    ensures
        r == (a@ == b@),
{
    let x = a.as_bytes();
    let y = b.as_bytes();
    proof {
        encode_utf8_decode_utf8(a@);
        encode_utf8_decode_utf8(b@);
    }
    if x.len() != y.len() {
        assert(a.spec_bytes() != b.spec_bytes());
        return false;
    }
    let mut i: usize = 0;
    while i < x.len()
        invariant
            x@ == a.spec_bytes(),
            y@ == b.spec_bytes(),
            x.len() == y.len(),
            i <= x.len(),
            forall|j: int| 0 <= j < i ==> x@[j] == y@[j],
        decreases x.len() - i,
    {
        if x[i] != y[i] {
            assert(a.spec_bytes()[i as int] != b.spec_bytes()[i as int]);
            return false;
        }
        i = i + 1;
    }
    assert(a.spec_bytes() =~= b.spec_bytes());
    true
}

/// Splitting valid UTF-8 at boundaries `s <= e`: the prefix up to `e` is
/// valid and `s` is a boundary in it.
pub proof fn lemma_boundary_in_prefix(b: Seq<u8>, s: int, e: int)
    requires
        valid_utf8(b),
        0 <= s <= e <= b.len(),
        is_char_boundary(b, s),
        is_char_boundary(b, e),
    ensures
        valid_utf8(b.subrange(0, e)),
        is_char_boundary(b.subrange(0, e), s),
{
    let pre = b.subrange(0, e);
    valid_utf8_split(b, e);
    if s == e {
        is_char_boundary_start_end_of_seq(pre);
        assert(pre.len() == e);
    } else {
        is_char_boundary_iff_not_is_continuation_byte(b, s);
        is_char_boundary_iff_not_is_continuation_byte(pre, s);
        assert(pre[s] == b[s]);
    }
}

/// Splitting valid UTF-8 at boundaries `s <= e`: the suffix from `s` is
/// valid and `e - s` is a boundary in it.
pub proof fn lemma_boundary_in_suffix(b: Seq<u8>, s: int, e: int)
    requires
        valid_utf8(b),
        0 <= s <= e <= b.len(),
        is_char_boundary(b, s),
        is_char_boundary(b, e),
    ensures
        valid_utf8(b.subrange(s, b.len() as int)),
        is_char_boundary(b.subrange(s, b.len() as int), e - s),
{
    let rest = b.subrange(s, b.len() as int);
    valid_utf8_split(b, s);
    if e == b.len() {
        is_char_boundary_start_end_of_seq(rest);
        assert(rest.len() == e - s);
    } else {
        is_char_boundary_iff_not_is_continuation_byte(b, e);
        is_char_boundary_iff_not_is_continuation_byte(rest, e - s);
        assert(rest[e - s] == b[e]);
    }
}

/// An ASCII byte of valid UTF-8 is a character of its own: both its index
/// and the next are boundaries.
pub proof fn lemma_ascii_boundary(b: Seq<u8>, i: int)
    requires
        valid_utf8(b),
        0 <= i < b.len(),
        b[i] < 128,
    ensures
        is_char_boundary(b, i),
        is_char_boundary(b, i + 1),
{
    is_char_boundary_iff_not_is_continuation_byte(b, i);
    let rest = b.subrange(i, b.len() as int);
    valid_utf8_split(b, i);
    assert(rest[0] == b[i]);
    assert(pop_first_scalar(rest) =~= b.subrange(i + 1, b.len() as int));
    if i + 1 < b.len() {
        let next = b.subrange(i + 1, b.len() as int);
        is_char_boundary_iff_not_is_continuation_byte(next, 0);
        assert(next[0] == b[i + 1]);
        is_char_boundary_iff_not_is_continuation_byte(b, i + 1);
    } else {
        is_char_boundary_start_end_of_seq(b);
    }
}

/// The bytes between two boundaries of valid UTF-8 are valid UTF-8.
pub proof fn lemma_valid_between(b: Seq<u8>, s: int, e: int)
    requires
        valid_utf8(b),
        0 <= s <= e <= b.len(),
        is_char_boundary(b, s),
        is_char_boundary(b, e),
    ensures
        valid_utf8(b.subrange(s, e)),
{
    lemma_boundary_in_prefix(b, s, e);
    let pre = b.subrange(0, e);
    valid_utf8_split(pre, s);
    assert(pre.subrange(s, pre.len() as int) =~= b.subrange(s, e));
}

/// What `str::parse::<u32>` gives: an optional `+`, then one or more
/// ASCII digits whose value fits in a `u32`.
pub open spec fn u32_text(s: Seq<char>) -> Option<u32> {
    let digits = if s.len() > 0 && s[0] == '+' {
        s.drop_first()
    } else {
        s
    };
    if digits.len() > 0 && all_digits(digits) && digits_value(digits) <= u32::MAX {
        Some(digits_value(digits) as u32)
    } else {
        None
    }
}

proof fn lemma_digits_value_monotone(t: Seq<char>, j: int)
    requires
        0 <= j <= t.len(),
        all_digits(t),
    ensures
        digits_value(t.subrange(0, j)) <= digits_value(t),
    decreases t.len(),
{
    if j < t.len() {
        let u = t.drop_last();
        assert(all_digits(u));
        lemma_digits_value_monotone(u, j);
        assert(u.subrange(0, j) =~= t.subrange(0, j));
    } else {
        assert(t.subrange(0, j) =~= t);
    }
}

/// `str::parse::<u32>`.
#[verifier::rlimit(40)]
pub fn parse_u32(s: &str) -> (r: Option<u32>)
    ensures
        r == u32_text(s@),
{
    let cs = chars_of(s);
    let ghost digits = if s@.len() > 0 && s@[0] == '+' {
        s@.drop_first()
    } else {
        s@
    };
    let start: usize = if cs.len() > 0 && cs[0] == '+' {
        1
    } else {
        0
    };
    assert(digits =~= cs@.subrange(start as int, cs@.len() as int));
    if start >= cs.len() {
        return None;
    }
    let mut value: u32 = 0;
    let mut k: usize = start;
    while k < cs.len()
        invariant
            start <= k <= cs@.len(),
            cs@ == s@,
            digits == cs@.subrange(start as int, cs@.len() as int),
            digits == (if s@.len() > 0 && s@[0] == '+' {
                s@.drop_first()
            } else {
                s@
            }),
            all_digits(cs@.subrange(start as int, k as int)),
            value == digits_value(cs@.subrange(start as int, k as int)),
        decreases cs@.len() - k,
    {
        let c = cs[k];
        let ghost next = cs@.subrange(start as int, k + 1);
        assert(next.drop_last() =~= cs@.subrange(start as int, k as int));
        if !('0' <= c && c <= '9') {
            proof {
                assert(digits[k - start] == cs@[k as int]);
                assert(!is_digit(digits[k - start]));
                assert(!all_digits(digits));
            }
            return None;
        }
        let d = (c as u32) - 48;
        assert(digits_value(next) == value * 10 + d);
        match value.checked_mul(10) {
            Some(v10) => match v10.checked_add(d) {
                Some(v) => {
                    value = v;
                },
                None => {
                    proof {
                        assert(digits_value(next) > u32::MAX);
                        if all_digits(digits) {
                            assert(digits.subrange(0, k + 1 - start) =~= next);
                            lemma_digits_value_monotone(digits, k + 1 - start);
                            assert(digits_value(digits) > u32::MAX);
                        }
                    }
                    return None;
                },
            },
            None => {
                proof {
                    if all_digits(digits) {
                        assert(digits.subrange(0, k + 1 - start) =~= next);
                        lemma_digits_value_monotone(digits, k + 1 - start);
                    }
                }
                return None;
            },
        }
        assert(all_digits(next));
        k = k + 1;
    }
    Some(value)
}

/// The first index at or after `i` where `needle` occurs in `hay`.
pub open spec fn first_occurrence_from(hay: Seq<char>, needle: Seq<char>, i: int) -> Option<int>
    decreases hay.len() + 1 - i,
{
    if i < 0 || i + needle.len() > hay.len() {
        None
    } else if occurs_in_at(hay, needle, i) {
        Some(i)
    } else {
        first_occurrence_from(hay, needle, i + 1)
    }
}

/// `str::find` for a string needle, as a character index.
pub fn str_find(hay: &str, needle: &str) -> (r: Option<usize>)
    ensures
        match first_occurrence_from(hay@, needle@, 0) {
            Some(i) => r == Some(i as usize),
            None => r is None,
        },
{
    let h = chars_of(hay);
    let n = chars_of(needle);
    if n.len() > h.len() {
        return None;
    }
    let mut i: usize = 0;
    while i <= h.len() - n.len()
        invariant
            h@ == hay@,
            n@ == needle@,
            n.len() <= h.len(),
            i <= h.len() - n.len() + 1,
            first_occurrence_from(hay@, needle@, 0) == first_occurrence_from(hay@, needle@, i as int),
        decreases h.len() - n.len() + 1 - i,
    {
        let mut k: usize = 0;
        let mut same = true;
        while k < n.len()
            invariant
                h@ == hay@,
                n@ == needle@,
                i + n.len() <= h.len(),
                k <= n.len(),
                same == forall|j: int| 0 <= j < k ==> h@[i + j] == n@[j],
            decreases n.len() - k,
        {
            if h[i + k] != n[k] {
                same = false;
            }
            k = k + 1;
        }
        if same {
            assert(hay@.subrange(i as int, i + needle@.len()) =~= needle@);
            return Some(i);
        }
        proof {
            let j = choose|j: int| 0 <= j < n.len() && h@[i + j] != n@[j];
            assert(hay@.subrange(i as int, i + needle@.len())[j] != needle@[j]);
        }
        i = i + 1;
    }
    None
}

proof fn lemma_first_occurrence(hay: Seq<char>, needle: Seq<char>, i: int)
    requires
        0 <= i,
    ensures
        first_occurrence_from(hay, needle, i) matches Some(j) ==> i <= j && occurs_in_at(hay, needle, j),
    decreases hay.len() + 1 - i,
{
    if i + needle.len() <= hay.len() && !occurs_in_at(hay, needle, i) {
        lemma_first_occurrence(hay, needle, i + 1);
    }
}

/// `hay` with its first occurrence of `from` replaced by `to`.
pub open spec fn replace_first(hay: Seq<char>, from: Seq<char>, to: Seq<char>) -> Seq<char> {
    match first_occurrence_from(hay, from, 0) {
        Some(i) => hay.subrange(0, i) + to + hay.subrange(i + from.len(), hay.len() as int),
        None => hay,
    }
}

/// `str::replacen(from, to, 1)`.
pub fn replace_first_str(hay: &str, from: &str, to: &str) -> (r: String)
    ensures
        r@ == replace_first(hay@, from@, to@),
{
    proof {
        lemma_first_occurrence(hay@, from@, 0);
    }
    match str_find(hay, from) {
        Some(i) => {
            let cs = chars_of(hay);
            let fl = from.unicode_len();
            let mut out = String::new();
            let mut k: usize = 0;
            while k < i
                invariant
                    k <= i,
                    i + fl <= cs@.len(),
                    cs@ == hay@,
                    out@ == cs@.subrange(0, k as int),
                decreases i - k,
            {
                out.push(cs[k]);
                assert(out@ =~= cs@.subrange(0, k + 1));
                k = k + 1;
            }
            out.append(to);
            let total = cs.len();
            assert(i + fl <= total);
            let mut j = i + fl;
            let ghost mid = out@;
            while j < cs.len()
                invariant
                    i + fl <= j <= cs@.len(),
                    cs@ == hay@,
                    out@ == mid + cs@.subrange(i + fl, j as int),
                decreases cs@.len() - j,
            {
                out.push(cs[j]);
                assert(out@ =~= mid + cs@.subrange(i + fl, j + 1));
                j = j + 1;
            }
            out
        },
        None => hay.to_owned(),
    }
}

/// `s` starts with `p`.
pub open spec fn has_prefix_chars(s: Seq<char>, p: Seq<char>) -> bool {
    p.len() <= s.len() && s.subrange(0, p.len() as int) == p
}

/// `s` without its first `n` characters.
pub fn drop_chars(s: &str, n: usize) -> (r: String)
    requires
        n <= s@.len(),
    ensures
        r@ == s@.subrange(n as int, s@.len() as int),
{
    let cs = chars_of(s);
    let mut out = String::new();
    let mut j = n;
    while j < cs.len()
        invariant
            n <= j <= cs@.len(),
            cs@ == s@,
            out@ == cs@.subrange(n as int, j as int),
        decreases cs@.len() - j,
    {
        out.push(cs[j]);
        assert(out@ =~= cs@.subrange(n as int, j + 1));
        j = j + 1;
    }
    out
}

/// `str::starts_with` for a string prefix.
pub fn str_starts_with(s: &str, p: &str) -> (r: bool)
    ensures
        r == has_prefix_chars(s@, p@),
{
    let a = chars_of(s);
    let b = chars_of(p);
    if b.len() > a.len() {
        return false;
    }
    let mut k: usize = 0;
    while k < b.len()
        invariant
            a@ == s@,
            b@ == p@,
            b.len() <= a.len(),
            k <= b.len(),
            forall|j: int| 0 <= j < k ==> a@[j] == b@[j],
        decreases b.len() - k,
    {
        if a[k] != b[k] {
            assert(s@.subrange(0, p@.len() as int)[k as int] != p@[k as int]);
            return false;
        }
        k = k + 1;
    }
    assert(s@.subrange(0, p@.len() as int) =~= p@);
    true
}

/// `a` followed by `b`.
pub fn string_concat(a: &str, b: &str) -> (r: String)
    ensures
        r@ == a@ + b@,
{
    let mut s = a.to_owned();
    s.append(b);
    s
}

/// The characters of `s`, in order.
pub fn chars_of(s: &str) -> (r: Vec<char>)
    ensures
        r@ == s@,
{
    let mut out: Vec<char> = Vec::new();
    for c in it: s.chars()
        invariant
            it.seq() == s@,
            out@ == s@.subrange(0, it.index() as int),
    {
        assert(c == s@[it.index() as int]);
        assert(out@.push(c) =~= s@.subrange(0, it.index() + 1));
        out.push(c);
    }
    assert(out@ =~= s@);
    out
}

/// `needle` occurs in `hay` starting at `i`.
pub open spec fn occurs_in_at(hay: Seq<char>, needle: Seq<char>, i: int) -> bool {
    0 <= i && i + needle.len() <= hay.len() && hay.subrange(i, i + needle.len()) == needle
}

/// `needle` occurs somewhere in `hay`.
pub open spec fn seq_contains(hay: Seq<char>, needle: Seq<char>) -> bool {
    exists|i: int| #[trigger] occurs_in_at(hay, needle, i)
}

/// `str::contains` for a string needle.
pub fn str_contains(hay: &str, needle: &str) -> (r: bool)
    ensures
        r == seq_contains(hay@, needle@),
{
    let h = chars_of(hay);
    let n = chars_of(needle);
    if n.len() > h.len() {
        assert forall|i: int| !occurs_in_at(hay@, needle@, i) by {}
        return false;
    }
    let mut i: usize = 0;
    while i <= h.len() - n.len()
        invariant
            h@ == hay@,
            n@ == needle@,
            n.len() <= h.len(),
            i <= h.len() - n.len() + 1,
            forall|j: int| 0 <= j < i ==> !occurs_in_at(hay@, needle@, j),
        decreases h.len() - n.len() + 1 - i,
    {
        let mut k: usize = 0;
        let mut same = true;
        while k < n.len()
            invariant
                h@ == hay@,
                n@ == needle@,
                i + n.len() <= h.len(),
                k <= n.len(),
                same == forall|j: int| 0 <= j < k ==> h@[i + j] == n@[j],
            decreases n.len() - k,
        {
            if h[i + k] != n[k] {
                same = false;
            }
            k = k + 1;
        }
        if same {
            assert(hay@.subrange(i as int, i + needle@.len()) =~= needle@);
            assert(occurs_in_at(hay@, needle@, i as int));
            return true;
        }
        proof {
            let j = choose|j: int| 0 <= j < n.len() && h@[i + j] != n@[j];
            assert(hay@.subrange(i as int, i + needle@.len())[j] != needle@[j]);
        }
        i = i + 1;
    }
    assert forall|j: int| !occurs_in_at(hay@, needle@, j) by {}
    false
}

} // verus!
