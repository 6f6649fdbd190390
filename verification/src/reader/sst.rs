//! Shared strings (`xl/sharedStrings.xml`) parse and the hit-index set.
//!
//! sharedStrings is a flat sequence of `<si>...</si>` entries; rich-text
//! entries contain several `<t>` runs, which are concatenated. Parsing uses
//! the byte scanner in `xml_scan`.

use vstd::prelude::*;
use vstd::string::StringExecFns;
use vstd::string::StringSliceAdditionalSpecFns;
use vstd::utf8::*;

use crate::matcher::Pattern;
use crate::reader::xml_scan::{
    element_body, for_each_tag, lemma_unescape_plain, next_element, next_tag, scan_elements,
    span_ok, unescape_bytes, xml_unescape, TagSpan,
};
use crate::support::{lemma_ascii_boundary, lemma_valid_between, str_from_utf8};

verus! {

/// Bit `k` (0..64) of the word `w`.
pub open spec fn word_bit(w: u64, k: u64) -> bool {
    (w >> k) & 1u64 == 1u64
}

proof fn lemma_set_bit(w: u64, k: u64, j: u64)
    by (bit_vector)
    requires
        k < 64,
        j < 64,
    ensures
        ((w | (1u64 << k)) >> j) & 1u64 == 1u64 <==> (j == k || (w >> j) & 1u64 == 1u64),
{
}

proof fn lemma_zero_word_bit(j: u64)
    by (bit_vector)
    requires
        j < 64,
    ensures
        (0u64 >> j) & 1u64 != 1u64,
{
}

proof fn lemma_shift_step(w: u64, n: u64, m: u64)
    by (bit_vector)
    requires
        0 < n < 64,
        m + 1 == n,
        w >> n == 0,
        (w >> m) & 1u64 != 1u64,
    ensures
        w >> m == 0,
{
}

proof fn lemma_top_bit(w: u64)
    by (bit_vector)
    ensures
        (w >> 63u64) & 1u64 != 1u64 ==> w >> 63u64 == 0,
        w >> 0u64 == w,
{
}

/// A nonzero word below 2^n has a set bit below n.
proof fn lemma_nonzero_has_bit_below(w: u64, n: u64) -> (j: u64)
    requires
        w != 0,
        0 < n < 64,
        w >> n == 0,
    ensures
        j < n,
        word_bit(w, j),
    decreases n,
{
    if word_bit(w, (n - 1) as u64) {
        (n - 1) as u64
    } else {
        lemma_shift_step(w, n, (n - 1) as u64);
        if n == 1 {
            lemma_top_bit(w);
            assert(false);
            0
        } else {
            lemma_nonzero_has_bit_below(w, (n - 1) as u64)
        }
    }
}

/// A nonzero word has a set bit.
proof fn lemma_nonzero_has_bit(w: u64) -> (j: u64)
    requires
        w != 0,
    ensures
        j < 64,
        word_bit(w, j),
{
    if word_bit(w, 63) {
        63
    } else {
        lemma_top_bit(w);
        lemma_nonzero_has_bit_below(w, 63)
    }
}

/// A set of indices `0..len`, one bit per index.
#[derive(Debug, Default)]
pub struct HitSet {
    bits: Vec<u64>,
    len: usize,
}

impl HitSet {
    /// Whether index `i` is set, read from the bit words.
    pub closed spec fn bit(self, i: int) -> bool {
        word_bit(self.bits@[i / 64], (i % 64) as u64)
    }

    /// The set as one flag per index `0..len`.
    pub closed spec fn flags(self) -> Seq<bool> {
        Seq::new(self.len as nat, |i: int| self.bit(i))
    }

    #[verifier::type_invariant]
    closed spec fn well_formed(self) -> bool {
        &&& self.bits@.len() * 64 >= self.len
        &&& self.bits@.len() * 64 < self.len + 64
        &&& forall|i: int| self.len <= i < self.bits@.len() * 64 ==> !#[trigger] self.bit(i)
    }
}

/// Number of `true` flags.
pub open spec fn count_true(s: Seq<bool>) -> nat
    decreases s.len(),
{
    if s.len() == 0 {
        0
    } else {
        count_true(s.drop_last()) + if s.last() {
            1nat
        } else {
            0nat
        }
    }
}

/// Strictly increasing indices.
pub open spec fn strictly_increasing(s: Seq<usize>) -> bool {
    forall|a: int, b: int| 0 <= a < b < s.len() ==> s[a] < s[b]
}

/// At most one count per flag; the count is zero exactly when no flag is
/// set.
pub proof fn lemma_count_true_bounds(flags: Seq<bool>)
    ensures
        count_true(flags) <= flags.len(),
        count_true(flags) == 0 <==> forall|i: int| 0 <= i < flags.len() ==> !flags[i],
    decreases flags.len(),
{
    if flags.len() > 0 {
        let p = flags.drop_last();
        lemma_count_true_bounds(p);
        assert forall|i: int| 0 <= i < p.len() implies p[i] == flags[i] by {}
        if count_true(flags) == 0 {
            assert forall|i: int| 0 <= i < flags.len() implies !flags[i] by {
                if i < p.len() {
                    assert(p[i] == flags[i]);
                }
            }
        }
        if forall|i: int| 0 <= i < flags.len() ==> !flags[i] {
            assert(!flags[flags.len() - 1]);
            assert forall|i: int| 0 <= i < p.len() implies !p[i] by {
                assert(p[i] == flags[i]);
            }
        }
    }
}

/// Ascending indices that are exactly the set flags number as many as the
/// set flags: what `HitSet::iter` returns has `HitSet::count` items.
pub proof fn lemma_set_indices_are_counted(flags: Seq<bool>, it: Seq<usize>)
    requires
        flags.len() <= usize::MAX,
        strictly_increasing(it),
        forall|k: int| 0 <= k < it.len() ==> it[k] < flags.len() && flags[it[k] as int],
        forall|i: int| 0 <= i < flags.len() && flags[i] ==> it.contains(i as usize),
    ensures
        it.len() == count_true(flags),
    decreases flags.len(),
{
    if flags.len() == 0 {
        if it.len() > 0 {
            assert(it[0] < flags.len());
        }
    } else {
        let n = flags.len() - 1;
        let p = flags.drop_last();
        if flags[n] {
            assert(it.contains(n as usize));
            let k = choose|k: int| 0 <= k < it.len() && it[k] == n as usize;
            if k < it.len() - 1 {
                assert(it[k] < it[it.len() - 1]);
                assert(it[it.len() - 1] < flags.len());
            }
            assert(k == it.len() - 1);
            let q = it.drop_last();
            assert forall|a: int, b: int| 0 <= a < b < q.len() implies q[a] < q[b] by {
                assert(q[a] == it[a] && q[b] == it[b]);
            }
            assert forall|j: int| 0 <= j < q.len() implies q[j] < p.len() && p[q[j] as int] by {
                assert(q[j] == it[j]);
                assert(it[j] < it[k]);
            }
            assert forall|i: int| 0 <= i < p.len() && p[i] implies q.contains(i as usize) by {
                assert(flags[i]);
                let j = choose|j: int| 0 <= j < it.len() && it[j] == i as usize;
                assert(j != k);
                assert(q[j] == it[j]);
            }
            lemma_set_indices_are_counted(p, q);
        } else {
            assert forall|j: int| 0 <= j < it.len() implies it[j] < p.len() && p[it[j] as int] by {
                if it[j] == n {
                    assert(flags[it[j] as int]);
                }
                assert(p[it[j] as int] == flags[it[j] as int]);
            }
            assert forall|i: int| 0 <= i < p.len() && p[i] implies it.contains(i as usize) by {
                assert(flags[i]);
            }
            lemma_set_indices_are_counted(p, it);
        }
    }
}

/// The bytes of the tag name `si`.
pub open spec fn si_tag() -> Seq<u8> {
    seq![115u8, 105u8]
}

/// The bytes of the tag name `t`.
pub open spec fn t_tag() -> Seq<u8> {
    seq![116u8]
}

/// The text of the runs `runs` of an entry body: each run's body,
/// unescaped and decoded, concatenated in order.
pub open spec fn run_texts(body: Seq<u8>, runs: Seq<(int, int, int)>) -> Seq<char>
    decreases runs.len(),
{
    if runs.len() == 0 {
        seq![]
    } else {
        run_texts(body, runs.drop_last()) + decode_utf8(unescape_bytes(element_body(body, runs.last())))
    }
}

/// The text of one `<si>` entry: its `<t>` runs concatenated.
pub open spec fn entry_text(body: Seq<u8>) -> Seq<char> {
    run_texts(body, scan_elements(body, t_tag(), 0))
}

/// The shared strings of a `sharedStrings.xml`: one per `<si>` entry, in
/// document order.
pub open spec fn sst_entries(xml: Seq<u8>) -> Seq<Seq<char>> {
    scan_elements(xml, si_tag(), 0).map_values(|e: (int, int, int)| entry_text(element_body(xml, e)))
}

proof fn lemma_tag_names()
    ensures
        "si".spec_bytes() == si_tag(),
        "t".spec_bytes() == t_tag(),
{
    reveal_strlit("si");
    reveal_strlit("t");
    assert(is_ascii_chars("si"@));
    assert(is_ascii_chars("t"@));
    is_ascii_chars_encode_utf8("si"@);
    is_ascii_chars_encode_utf8("t"@);
    assert("si".spec_bytes() =~= si_tag());
    assert("t".spec_bytes() =~= t_tag());
}

/// The body of an element found in valid UTF-8 is valid UTF-8: it lies
/// between the ASCII `>` and `<` that delimit it.
pub(crate) proof fn lemma_body_valid(b: Seq<u8>, s: TagSpan)
    requires
        valid_utf8(b),
        span_ok(b, s),
    ensures
        valid_utf8(b.subrange(s.body_start as int, s.body_end as int)),
{
    lemma_ascii_boundary(b, s.attrs_end as int);
    lemma_ascii_boundary(b, s.body_end as int);
    lemma_valid_between(b, s.body_start as int, s.body_end as int);
}

/// Append a `<t>` element body to the output string. Fast path: a body
/// without `&` is pushed as it is; otherwise it goes through
/// `xml_unescape`, which handles the 5 standard entities.
fn append_t_body(out: &mut String, t_body: &[u8])
    requires
        valid_utf8(t_body@),
    ensures
        final(out)@ == old(out)@ + decode_utf8(unescape_bytes(t_body@)),
{
    let mut i: usize = 0;
    while i < t_body.len()
        invariant
            i <= t_body@.len(),
            forall|j: int| 0 <= j < i ==> t_body@[j] != 38,
        ensures
            i <= t_body@.len(),
            forall|j: int| 0 <= j < i ==> t_body@[j] != 38,
            i < t_body@.len() ==> t_body@[i as int] == 38,
        decreases t_body@.len() - i,
    {
        if t_body[i] == 38u8 {
            break;
        }
        i = i + 1;
    }
    let has_amp = i < t_body.len();
    if !has_amp {
        proof {
            lemma_unescape_plain(t_body@);
        }
        if let Some(s) = str_from_utf8(t_body) {
            out.append(s);
            return;
        }
    }
    let u = xml_unescape(t_body);
    out.append(u.as_str());
}

/// The text of one `<si>` entry body.
pub(crate) fn entry_text_of(body: &[u8]) -> (r: String)
    requires
        valid_utf8(body@),
    ensures
        r@ == entry_text(body@),
{
    proof {
        lemma_tag_names();
    }
    let runs = for_each_tag(body, "t");
    let ghost scan = scan_elements(body@, t_tag(), 0);
    let mut text = String::new();
    let mut k: usize = 0;
    while k < runs.len()
        invariant
            k <= runs@.len(),
            valid_utf8(body@),
            scan == scan_elements(body@, t_tag(), 0),
            runs@.len() == scan.len(),
            forall|i: int| 0 <= i < runs@.len() ==> #[trigger] runs@[i].describes(scan[i], 1),
            forall|i: int| 0 <= i < runs@.len() ==> span_ok(body@, #[trigger] runs@[i]),
            text@ == run_texts(body@, scan.subrange(0, k as int)),
        decreases runs@.len() - k,
    {
        let s = runs[k];
        assert(span_ok(body@, runs@[k as int]));
        proof {
            lemma_body_valid(body@, s);
        }
        let tb = &body[s.body_start..s.body_end];
        append_t_body(&mut text, tb);
        proof {
            assert(scan.subrange(0, k + 1).drop_last() =~= scan.subrange(0, k as int));
            assert(runs@[k as int].describes(scan[k as int], 1));
            assert(tb@ =~= element_body(body@, scan[k as int]));
        }
        k = k + 1;
    }
    assert(scan.subrange(0, k as int) =~= scan);
    text
}

impl HitSet {
    pub fn new(n: usize) -> (r: Self)
        ensures
            r.flags() == Seq::new(n as nat, |i: int| false),
    {
        let words = n / 64 + if n % 64 != 0 {
            1
        } else {
            0
        };
        let mut bits: Vec<u64> = Vec::new();
        let mut k: usize = 0;
        while k < words
            invariant
                k <= words,
                bits@.len() == k,
                forall|j: int| 0 <= j < k ==> bits@[j] == 0u64,
            decreases words - k,
        {
            bits.push(0u64);
            k = k + 1;
        }
        proof {
            assert forall|i: int| 0 <= i < bits@.len() * 64 implies !#[trigger] word_bit(
                bits@[i / 64],
                (i % 64) as u64,
            ) by {
                lemma_zero_word_bit((i % 64) as u64);
            }
        }
        let r = HitSet { bits, len: n };
        assert(r.flags() =~= Seq::new(n as nat, |i: int| false));
        r
    }

    pub fn insert(&mut self, i: usize)
        ensures
            final(self).flags() == if i < old(self).flags().len() {
                old(self).flags().update(i as int, true)
            } else {
                old(self).flags()
            },
    {
        proof {
            use_type_invariant(&*self);
        }
        if i >= self.len {
            return;
        }
        let w = i / 64;
        let k = (i % 64) as u64;
        let word = self.bits[w];
        let ghost old_self = *self;
        let new_word = word | (1u64 << k);
        proof {
            assert forall|j: u64| j < 64 implies word_bit(new_word, j) == (j == k || word_bit(word, j)) by {
                lemma_set_bit(word, k, j);
            }
        }
        let mut taken = HitSet { bits: Vec::new(), len: 0 };
        std::mem::swap(self, &mut taken);
        let HitSet { bits: mut bits, len } = taken;
        bits.set(w, new_word);
        proof {
            assert forall|j: int| len <= j < bits@.len() * 64 implies !#[trigger] word_bit(
                bits@[j / 64],
                (j % 64) as u64,
            ) by {
                assert(!old_self.bit(j));
                if j / 64 == w as int {
                    assert(word_bit(new_word, (j % 64) as u64) == ((j % 64) as u64 == k || word_bit(
                        word,
                        (j % 64) as u64,
                    )));
                }
            }
        }
        *self = HitSet { bits, len };
        proof {
            assert forall|j: int| 0 <= j < self.bits@.len() * 64 implies #[trigger] self.bit(j) == (
            old_self.bit(j) || j == i) by {
                if j / 64 == w as int {
                    assert(word_bit(new_word, (j % 64) as u64) == ((j % 64) as u64 == k || word_bit(
                        word,
                        (j % 64) as u64,
                    )));
                }
            }
            assert(self.flags() =~= old_self.flags().update(i as int, true));
        }
    }

    pub fn contains(&self, i: usize) -> (r: bool)
        ensures
            r == (i < self.flags().len() && self.flags()[i as int]),
    {
        proof {
            use_type_invariant(self);
        }
        if i >= self.len {
            return false;
        }
        (self.bits[i / 64] >> ((i % 64) as u64)) & 1u64 == 1u64
    }

    pub fn is_empty(&self) -> (r: bool)
        ensures
            r == (forall|i: int| 0 <= i < self.flags().len() ==> !self.flags()[i]),
    {
        proof {
            use_type_invariant(self);
        }
        let mut w: usize = 0;
        while w < self.bits.len()
            invariant
                w <= self.bits@.len(),
                forall|j: int| 0 <= j < w ==> self.bits@[j] == 0u64,
            decreases self.bits@.len() - w,
        {
            if self.bits[w] != 0u64 {
                proof {
                    use_type_invariant(self);
                    let j = lemma_nonzero_has_bit(self.bits@[w as int]);
                    let idx = w * 64 + j;
                    assert(idx / 64 == w as int && idx % 64 == j as int);
                    assert(self.bit(idx));
                    assert(idx < self.len);
                    assert(self.flags()[idx]);
                }
                return false;
            }
            w = w + 1;
        }
        proof {
            assert forall|i: int| 0 <= i < self.flags().len() implies !self.flags()[i] by {
                lemma_zero_word_bit((i % 64) as u64);
            }
        }
        true
    }

    /// The total number of sst entries this set was sized for.
    pub fn len(&self) -> (r: usize)
        ensures
            r == self.flags().len(),
    {
        self.len
    }

    /// The set indices, ascending.
    pub fn iter(&self) -> (r: Vec<usize>)
        ensures
            strictly_increasing(r@),
            forall|k: int| 0 <= k < r@.len() ==> r@[k] < self.flags().len() && self.flags()[r@[k] as int],
            forall|i: int| 0 <= i < self.flags().len() && self.flags()[i] ==> r@.contains(i as usize),
            r@.len() == count_true(self.flags()),
    {
        let mut out: Vec<usize> = Vec::new();
        let mut i: usize = 0;
        while i < self.len
            invariant
                i <= self.flags().len(),
                strictly_increasing(out@),
                forall|k: int| 0 <= k < out@.len() ==> out@[k] < i && self.flags()[out@[k] as int],
                forall|j: int| 0 <= j < i && self.flags()[j] ==> out@.contains(j as usize),
            decreases self.flags().len() - i,
        {
            if self.contains(i) {
                proof {
                    assert forall|j: int| 0 <= j < i + 1 && self.flags()[j] implies out@.push(
                        i,
                    ).contains(j as usize) by {
                        if j < i {
                            let k = choose|k: int| 0 <= k < out@.len() && out@[k] == j as usize;
                            assert(out@.push(i)[k] == j as usize);
                        } else {
                            assert(out@.push(i)[out@.len() as int] == i);
                        }
                    }
                }
                out.push(i);
            }
            i = i + 1;
        }
        proof {
            assert(self.flags().len() == self.len);
            lemma_set_indices_are_counted(self.flags(), out@);
        }
        out
    }

    /// The number of set indices.
    pub fn count(&self) -> (r: usize)
        ensures
            r == count_true(self.flags()),
    {
        let mut n: usize = 0;
        let mut i: usize = 0;
        while i < self.len
            invariant
                i <= self.flags().len(),
                n == count_true(self.flags().subrange(0, i as int)),
                n <= i,
            decreases self.flags().len() - i,
        {
            proof {
                assert(self.flags().subrange(0, i + 1).drop_last() =~= self.flags().subrange(0, i as int));
            }
            if self.contains(i) {
                n = n + 1;
            }
            i = i + 1;
        }
        assert(self.flags().subrange(0, i as int) =~= self.flags());
        n
    }
}

/// For every hit set: `count()` is at most `len()`, `is_empty()` holds
/// exactly when `count()` is zero, and (by `iter`'s contract) `iter()`
/// returns `count()` indices.
pub proof fn lemma_hit_set_count_law(h: HitSet)
    ensures
        count_true(h.flags()) <= h.flags().len(),
        count_true(h.flags()) == 0 <==> forall|i: int| 0 <= i < h.flags().len() ==> !h.flags()[i],
{
    lemma_count_true_bounds(h.flags());
}

/// The views of a sequence of strings.
pub open spec fn string_views(v: Seq<String>) -> Seq<Seq<char>> {
    v.map_values(|s: String| s@)
}

/// Parse a `sharedStrings.xml` (`None` when the workbook has none) into
/// its strings. Index order matches the `<si>` order, which is what xlsx
/// `<v>idx</v>` references use.
pub fn parse(xml: Option<&str>) -> (r: Vec<String>)
    ensures
        string_views(r@) == match xml {
            Some(x) => sst_entries(x.spec_bytes()),
            None => Seq::<Seq<char>>::empty(),
        },
{
    let mut out: Vec<String> = Vec::new();
    let x = match xml {
        Some(x) => x,
        None => {
            assert(string_views(out@) =~= Seq::<Seq<char>>::empty());
            return out;
        },
    };
    proof {
        lemma_tag_names();
        encode_utf8_valid_utf8(x@);
    }
    let bytes = x.as_bytes();
    let entries = for_each_tag(bytes, "si");
    let ghost scan = scan_elements(bytes@, si_tag(), 0);
    let mut k: usize = 0;
    while k < entries.len()
        invariant
            k <= entries@.len(),
            bytes@ == x.spec_bytes(),
            valid_utf8(bytes@),
            scan == scan_elements(bytes@, si_tag(), 0),
            entries@.len() == scan.len(),
            forall|i: int| 0 <= i < entries@.len() ==> #[trigger] entries@[i].describes(scan[i], 2),
            forall|i: int| 0 <= i < entries@.len() ==> span_ok(bytes@, #[trigger] entries@[i]),
            string_views(out@) == sst_entries(bytes@).subrange(0, k as int),
        decreases entries@.len() - k,
    {
        let s = entries[k];
        assert(span_ok(bytes@, entries@[k as int]));
        assert(entries@[k as int].describes(scan[k as int], 2));
        proof {
            lemma_body_valid(bytes@, s);
        }
        let body = &bytes[s.body_start..s.body_end];
        assert(body@ =~= element_body(bytes@, scan[k as int]));
        let text = entry_text_of(body);
        let ghost before = out@;
        out.push(text);
        proof {
            assert(string_views(out@) =~= string_views(before).push(text@));
            assert(sst_entries(bytes@).subrange(0, k + 1) =~= sst_entries(bytes@).subrange(0, k as int).push(
                text@,
            ));
        }
        k = k + 1;
    }
    assert(sst_entries(bytes@).subrange(0, k as int) =~= sst_entries(bytes@));
    out
}

/// Entry `i` is a hit: there is a pattern and it matches the entry.
pub open spec fn entry_hit(entries: Seq<Seq<char>>, pattern: Option<&Pattern>, i: int) -> bool {
    match pattern {
        Some(p) => p.matches(entries[i]),
        None => false,
    }
}

/// The hit flags of the first `n` entries.
pub open spec fn hit_flags(entries: Seq<Seq<char>>, pattern: Option<&Pattern>, n: int) -> Seq<bool> {
    Seq::new(n as nat, |i: int| entry_hit(entries, pattern, i))
}

/// Build a HitSet marking the sst indices whose string matches `pattern`;
/// with no pattern, an empty set of the right length.
pub fn build_hit_set(sst: &[String], pattern: Option<&Pattern>) -> (r: HitSet)
    ensures
        r.flags() == hit_flags(string_views(sst@), pattern, sst@.len() as int),
{
    let ghost entries = string_views(sst@);
    let mut hs = HitSet::new(sst.len());
    if let Some(p) = pattern {
        let mut i: usize = 0;
        while i < sst.len()
            invariant
                i <= sst@.len(),
                entries == string_views(sst@),
                pattern == Some(p),
                hs.flags().len() == sst@.len(),
                forall|j: int| 0 <= j < sst@.len() ==> #[trigger] hs.flags()[j] == (j < i && entry_hit(entries, pattern, j)),
            decreases sst@.len() - i,
        {
            assert(entries[i as int] == sst@[i as int]@);
            if p.is_match(sst[i].as_str()) {
                hs.insert(i);
            }
            i = i + 1;
        }
    }
    assert(hs.flags() =~= hit_flags(entries, pattern, sst@.len() as int));
    hs
}

/// The number of hits among the first `n` entries.
pub open spec fn hits_upto(entries: Seq<Seq<char>>, pattern: Option<&Pattern>, n: int) -> nat
    decreases n,
{
    if n <= 0 {
        0
    } else {
        hits_upto(entries, pattern, n - 1) + if entry_hit(entries, pattern, n - 1) {
            1nat
        } else {
            0nat
        }
    }
}

/// The number of entries scanned when the scan stops: the first `m > n`
/// whose hit count exceeds `threshold`, if there is one.
pub open spec fn abort_point(entries: Seq<Seq<char>>, pattern: Option<&Pattern>, threshold: int, n: int) -> Option<
    int,
>
    decreases entries.len() - n,
{
    if n < 0 || n >= entries.len() {
        None
    } else if hits_upto(entries, pattern, n + 1) > threshold {
        Some(n + 1)
    } else {
        abort_point(entries, pattern, threshold, n + 1)
    }
}

/// The number of entries a streaming scan reads: up to the abort point,
/// else all of them.
pub open spec fn scanned_size(entries: Seq<Seq<char>>, pattern: Option<&Pattern>, threshold: int) -> int {
    match abort_point(entries, pattern, threshold, 0) {
        Some(m) => m,
        None => entries.len() as int,
    }
}

/// Streaming parse + hit-set build with early abort, on the xml text.
///
/// Scans one `<si>` entry at a time, applying `pattern`. As soon as the
/// hit count exceeds `abort_threshold`, scanning stops and `aborted` is
/// true; the returned size then counts only the entries scanned, and the
/// hit set covers only those. Callers must bypass the fast path when
/// aborted.
pub fn parse_xml_with_early_abort(xml: &str, pattern: Option<&Pattern>, abort_threshold: usize) -> (r: (
    usize,
    HitSet,
    bool,
))
    ensures
        ({
            let entries = sst_entries(xml.spec_bytes());
            let size = scanned_size(entries, pattern, abort_threshold as int);
            &&& r.0 == size
            &&& r.2 == abort_point(entries, pattern, abort_threshold as int, 0) is Some
            &&& r.1.flags() == hit_flags(entries, pattern, size)
        }),
{
    proof {
        lemma_tag_names();
        encode_utf8_valid_utf8(xml@);
    }
    let bytes = xml.as_bytes();
    let ghost x = bytes@;
    let ghost entries = sst_entries(x);
    let ghost thr = abort_threshold as int;
    let ghost mut done: Seq<(int, int, int)> = seq![];
    let mut pos: usize = 0;
    let mut sst_size: usize = 0;
    let mut hit_indices: Vec<usize> = Vec::new();
    let mut aborted = false;
    loop
        invariant_except_break
            x == bytes@,
            x == xml.spec_bytes(),
            "si".spec_bytes() == si_tag(),
            valid_utf8(x),
            entries == sst_entries(x),
            thr == abort_threshold as int,
            pos <= x.len(),
            scan_elements(x, si_tag(), 0) == done + scan_elements(x, si_tag(), pos as int),
            done.len() == sst_size,
            sst_size <= pos,
            sst_size <= entries.len(),
            hits_upto(entries, pattern, sst_size as int) <= thr,
            abort_point(entries, pattern, thr, 0) == abort_point(entries, pattern, thr, sst_size as int),
            hit_indices@.len() == hits_upto(entries, pattern, sst_size as int),
            forall|k: int| 0 <= k < hit_indices@.len() ==> (#[trigger] hit_indices@[k]) < sst_size && entry_hit(entries, pattern, hit_indices@[k] as int),
            forall|i: int| 0 <= i < sst_size && entry_hit(entries, pattern, i) ==> hit_indices@.contains(i as usize),
            !aborted,
        ensures
            sst_size == scanned_size(entries, pattern, thr),
            aborted == abort_point(entries, pattern, thr, 0) is Some,
            forall|k: int| 0 <= k < hit_indices@.len() ==> (#[trigger] hit_indices@[k]) < sst_size && entry_hit(entries, pattern, hit_indices@[k] as int),
            forall|i: int| 0 <= i < sst_size && entry_hit(entries, pattern, i) ==> hit_indices@.contains(i as usize),
        decreases x.len() - pos,
    {
        match next_tag(bytes, "si", pos) {
            None => {
                proof {
                    assert(scan_elements(x, si_tag(), pos as int) =~= Seq::<(int, int, int)>::empty());
                    assert(done + scan_elements(x, si_tag(), pos as int) =~= done);
                    assert(entries.len() == sst_size);
                }
                break;
            },
            Some(span) => {
                let ghost e = next_element(x, si_tag(), pos as int).unwrap();
                proof {
                    assert(scan_elements(x, si_tag(), pos as int) == seq![e] + scan_elements(x, si_tag(), span.next as int));
                    assert(done + scan_elements(x, si_tag(), pos as int) =~= done.push(e) + scan_elements(
                        x,
                        si_tag(),
                        span.next as int,
                    ));
                    assert(scan_elements(x, si_tag(), 0)[sst_size as int] == e);
                    lemma_body_valid(x, span);
                    done = done.push(e);
                }
                let body = &bytes[span.body_start..span.body_end];
                assert(body@ =~= element_body(x, e));
                let text = entry_text_of(body);
                assert(text@ == entries[sst_size as int]);
                let idx = sst_size;
                sst_size = sst_size + 1;
                pos = span.next;
                let hit = match pattern {
                    Some(p) => p.is_match(text.as_str()),
                    None => false,
                };
                assert(hit == entry_hit(entries, pattern, idx as int));
                if hit {
                    let ghost before = hit_indices@;
                    hit_indices.push(idx);
                    proof {
                        assert forall|i: int| 0 <= i < sst_size && entry_hit(entries, pattern, i) implies hit_indices@.contains(i as usize) by {
                            if i < idx {
                                let k = choose|k: int| 0 <= k < before.len() && before[k] == i as usize;
                                assert(hit_indices@[k] == i as usize);
                            } else {
                                assert(hit_indices@[before.len() as int] == idx);
                            }
                        }
                    }
                    if hit_indices.len() > abort_threshold {
                        aborted = true;
                        assert(abort_point(entries, pattern, thr, idx as int) == Some(sst_size as int));
                        break;
                    }
                } else {
                    proof {
                        assert forall|i: int| 0 <= i < sst_size && entry_hit(entries, pattern, i) implies hit_indices@.contains(i as usize) by {}
                    }
                }
                assert(abort_point(entries, pattern, thr, idx as int) == abort_point(entries, pattern, thr, sst_size as int));
            },
        }
    }
    let mut hs = HitSet::new(sst_size);
    let mut k: usize = 0;
    while k < hit_indices.len()
        invariant
            k <= hit_indices@.len(),
            hs.flags().len() == sst_size,
            forall|j: int| 0 <= j < hit_indices@.len() ==> (#[trigger] hit_indices@[j]) < sst_size,
            forall|i: int| 0 <= i < sst_size ==> #[trigger] hs.flags()[i] == exists|j: int| 0 <= j < k && hit_indices@[j] == i as usize,
        decreases hit_indices@.len() - k,
    {
        let ghost before = hs.flags();
        hs.insert(hit_indices[k]);
        proof {
            assert forall|i: int| 0 <= i < sst_size implies #[trigger] hs.flags()[i] == exists|j: int| 0 <= j < k + 1 && hit_indices@[j] == i as usize by {
                if i == hit_indices@[k as int] {
                    assert(hit_indices@[k as int] == i as usize);
                } else {
                    assert(hs.flags()[i] == before[i]);
                    if exists|j: int| 0 <= j < k + 1 && hit_indices@[j] == i as usize {
                        let j = choose|j: int| 0 <= j < k + 1 && hit_indices@[j] == i as usize;
                        assert(j < k);
                    }
                }
            }
        }
        k = k + 1;
    }
    proof {
        assert forall|i: int| 0 <= i < sst_size implies #[trigger] hs.flags()[i] == entry_hit(entries, pattern, i) by {
            if entry_hit(entries, pattern, i) {
                assert(hit_indices@.contains(i as usize));
                let j = choose|j: int| 0 <= j < hit_indices@.len() && hit_indices@[j] == i as usize;
                assert(hit_indices@[j] == i as usize);
            }
            if hs.flags()[i] {
                let j = choose|j: int| 0 <= j < k && hit_indices@[j] == i as usize;
                assert(entry_hit(entries, pattern, hit_indices@[j] as int));
            }
        }
        assert(hs.flags() =~= hit_flags(entries, pattern, sst_size as int));
    }
    (sst_size, hs, aborted)
}

/// Streaming parse + hit-set build with early abort on the workbook's
/// `sharedStrings.xml` (`None` when it has none: nothing to scan).
pub fn parse_with_early_abort(xml: Option<&str>, pattern: Option<&Pattern>, abort_threshold: usize) -> (r: (
    usize,
    HitSet,
    bool,
))
    ensures
        ({
            let entries = match xml {
                Some(x) => sst_entries(x.spec_bytes()),
                None => Seq::<Seq<char>>::empty(),
            };
            let size = scanned_size(entries, pattern, abort_threshold as int);
            &&& r.0 == size
            &&& r.2 == abort_point(entries, pattern, abort_threshold as int, 0) is Some
            &&& r.1.flags() == hit_flags(entries, pattern, size)
        }),
{
    match xml {
        Some(x) => parse_xml_with_early_abort(x, pattern, abort_threshold),
        None => {
            let hs = HitSet::new(0);
            assert(hs.flags() =~= hit_flags(Seq::<Seq<char>>::empty(), pattern, 0));
            (0, hs, false)
        },
    }
}

proof fn lemma_abort_point_from(entries: Seq<Seq<char>>, pattern: Option<&Pattern>, threshold: int, n: int)
    requires
        0 <= n <= entries.len(),
        hits_upto(entries, pattern, n) <= threshold,
    ensures
        match abort_point(entries, pattern, threshold, n) {
            Some(m) => n < m <= entries.len() && hits_upto(entries, pattern, m) == threshold + 1
                && entry_hit(entries, pattern, m - 1),
            None => hits_upto(entries, pattern, entries.len() as int) <= threshold,
        },
    decreases entries.len() - n,
{
    if n < entries.len() && hits_upto(entries, pattern, n + 1) <= threshold {
        lemma_abort_point_from(entries, pattern, threshold, n + 1);
    }
}

/// The early-abort scan stops exactly when the hit count first exceeds
/// the threshold: then the scanned entries hold `threshold + 1` hits, the
/// last scanned entry being one of them; otherwise every entry is scanned
/// and they hold at most `threshold` hits.
pub proof fn lemma_abort_point(entries: Seq<Seq<char>>, pattern: Option<&Pattern>, threshold: int)
    requires
        threshold >= 0,
    ensures
        match abort_point(entries, pattern, threshold, 0) {
            Some(m) => 1 <= m <= entries.len() && hits_upto(entries, pattern, m) == threshold + 1
                && entry_hit(entries, pattern, m - 1),
            None => scanned_size(entries, pattern, threshold) == entries.len() && hits_upto(
                entries,
                pattern,
                entries.len() as int,
            ) <= threshold,
        },
{
    lemma_abort_point_from(entries, pattern, threshold, 0);
}

/// The hit flags of the first `n` entries hold as many set flags as there
/// are hits among them.
pub proof fn lemma_hit_flags_count(entries: Seq<Seq<char>>, pattern: Option<&Pattern>, n: int)
    requires
        0 <= n,
    ensures
        count_true(hit_flags(entries, pattern, n)) == hits_upto(entries, pattern, n),
    decreases n,
{
    if n > 0 {
        lemma_hit_flags_count(entries, pattern, n - 1);
        assert(hit_flags(entries, pattern, n).drop_last() =~= hit_flags(entries, pattern, n - 1));
    }
}

/// Without an abort, the streaming scan gives what parsing every entry
/// and then building the hit set gives.
pub proof fn lemma_no_abort_is_full_scan(xml: Seq<u8>, pattern: Option<&Pattern>, threshold: int)
    requires
        threshold >= 0,
        abort_point(sst_entries(xml), pattern, threshold, 0) is None,
    ensures
        scanned_size(sst_entries(xml), pattern, threshold) == sst_entries(xml).len(),
        hit_flags(sst_entries(xml), pattern, scanned_size(sst_entries(xml), pattern, threshold)) == hit_flags(
            sst_entries(xml),
            pattern,
            sst_entries(xml).len() as int,
        ),
{
}

/// Inserting an index sets its flag and leaves every other flag as it
/// was; the count grows by one exactly when the index was not yet set.
pub proof fn lemma_insert_sets_one(flags: Seq<bool>, i: int)
    requires
        0 <= i < flags.len(),
    ensures
        flags.update(i, true)[i],
        forall|j: int| 0 <= j < flags.len() && j != i ==> flags.update(i, true)[j] == flags[j],
        count_true(flags.update(i, true)) == count_true(flags) + if flags[i] {
            0nat
        } else {
            1nat
        },
    decreases flags.len(),
{
    let u = flags.update(i, true);
    if i < flags.len() - 1 {
        lemma_insert_sets_one(flags.drop_last(), i);
        assert(u.drop_last() =~= flags.drop_last().update(i, true));
    } else {
        assert(u.drop_last() =~= flags.drop_last());
    }
}

} // verus!
