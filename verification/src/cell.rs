//! A1 notation: rows and columns are 0-indexed internally, 1-indexed in text.

use vstd::prelude::*;

verus! {

/// The letter for a column digit `d` in `0..26` ('A' + d).
pub open spec fn letter(d: int) -> char {
    (65 + d) as char
}

/// The letters of a 1-based column number in bijective base 26
/// (1 -> "A", 26 -> "Z", 27 -> "AA").
pub open spec fn col_letters(n: nat) -> Seq<char>
    decreases n,
{
    if n == 0 {
        seq![]
    } else {
        col_letters(((n - 1) / 26) as nat).push(letter((n - 1) % 26))
    }
}

/// The ASCII digit for `d` in `0..10`.
pub open spec fn digit_char(d: int) -> char {
    (48 + d) as char
}

/// The decimal digits of `n`, most significant first, no leading zeros.
pub open spec fn decimal(n: nat) -> Seq<char>
    decreases n,
{
    if n < 10 {
        seq![digit_char(n as int)]
    } else {
        decimal(n / 10).push(digit_char((n % 10) as int))
    }
}

/// The A1 address of the 0-indexed cell (row, col).
pub open spec fn a1(row: nat, col: nat) -> Seq<char> {
    col_letters(col + 1) + decimal(row + 1)
}

fn push_col_letters(s: &mut String, n: u32)
    ensures
        final(s)@ == old(s)@ + col_letters(n as nat),
    decreases n,
{
    if n > 0 {
        push_col_letters(s, (n - 1) / 26);
        let d = ((n - 1) % 26) as u8;
        s.push((65u8 + d) as char);
        assert(final(s)@ =~= old(s)@ + col_letters(n as nat));
    } else {
        assert(final(s)@ =~= old(s)@ + col_letters(n as nat));
    }
}

/// Append the decimal digits of `n`.
pub(crate) fn push_decimal(s: &mut String, n: u128)
    ensures
        final(s)@ == old(s)@ + decimal(n as nat),
    decreases n,
{
    if n < 10 {
        s.push((48u8 + n as u8) as char);
        assert(final(s)@ =~= old(s)@ + decimal(n as nat));
    } else {
        push_decimal(s, n / 10);
        s.push((48u8 + (n % 10) as u8) as char);
        assert(final(s)@ =~= old(s)@ + decimal(n as nat));
    }
}

/// Convert (row, col) 0-indexed to Excel A1 notation, e.g. (0,0) -> "A1", (2,1) -> "B3".
pub fn to_a1(row: u32, col: u32) -> (s: String)
    requires
        row < u32::MAX,
        col < u32::MAX,
    ensures
        s@ == a1(row as nat, col as nat),
{
    let mut s = String::new();
    push_col_letters(&mut s, col + 1);
    push_decimal(&mut s, (row + 1) as u128);
    assert(s@ =~= a1(row as nat, col as nat));
    s
}

/// True for '0'..='9'.
pub open spec fn is_digit(c: char) -> bool {
    '0' <= c <= '9'
}

/// Index of the first ASCII digit at or after `i` (the length when none).
pub open spec fn first_digit_from(s: Seq<char>, i: int) -> int
    decreases s.len() - i,
{
    if i >= s.len() {
        s.len() as int
    } else if is_digit(s[i]) {
        i
    } else {
        first_digit_from(s, i + 1)
    }
}

/// True for 'A'..='Z' and 'a'..='z'.
pub open spec fn is_letter(c: char) -> bool {
    ('A' <= c <= 'Z') || ('a' <= c <= 'z')
}

/// True when every character is an ASCII letter.
pub open spec fn all_letters(s: Seq<char>) -> bool {
    forall|i: int| 0 <= i < s.len() ==> is_letter(#[trigger] s[i])
}

/// True when every character is an ASCII digit.
pub open spec fn all_digits(s: Seq<char>) -> bool {
    forall|i: int| 0 <= i < s.len() ==> is_digit(#[trigger] s[i])
}

/// The value of a string of decimal digits.
pub open spec fn digits_value(s: Seq<char>) -> nat
    decreases s.len(),
{
    if s.len() == 0 {
        0
    } else {
        digits_value(s.drop_last()) * 10 + (s.last() as nat - 48) as nat
    }
}

/// The row of an A1 address: a non-empty run of ASCII letters, then a
/// non-empty run of ASCII digits forming a number in `1..=u32::MAX`.
pub open spec fn a1_row(s: Seq<char>) -> Option<u32> {
    let k = first_digit_from(s, 0);
    let digits = s.subrange(k, s.len() as int);
    if k == 0 || k == s.len() || !all_letters(s.subrange(0, k)) || !all_digits(digits) || digits_value(digits) == 0
        || digits_value(digits) > u32::MAX {
        None
    } else {
        Some(digits_value(digits) as u32)
    }
}

proof fn lemma_first_digit_bounds(s: Seq<char>, i: int)
    requires
        0 <= i <= s.len(),
    ensures
        i <= first_digit_from(s, i) <= s.len(),
        forall|j: int| i <= j < first_digit_from(s, i) ==> !is_digit(#[trigger] s[j]),
        first_digit_from(s, i) < s.len() ==> is_digit(s[first_digit_from(s, i)]),
    decreases s.len() - i,
{
    if i < s.len() && !is_digit(s[i]) {
        lemma_first_digit_bounds(s, i + 1);
    }
}

proof fn lemma_first_digit_skip(s: Seq<char>, i: int, j: int)
    requires
        0 <= i <= j <= s.len(),
        forall|t: int| i <= t < j ==> !is_digit(#[trigger] s[t]),
    ensures
        first_digit_from(s, i) == first_digit_from(s, j),
    decreases j - i,
{
    if i < j {
        lemma_first_digit_skip(s, i + 1, j);
    }
}

proof fn lemma_digits_value_prefix(t: Seq<char>, j: int)
    requires
        0 <= j <= t.len(),
        all_digits(t),
    ensures
        digits_value(t.subrange(0, j)) <= digits_value(t),
    decreases t.len(),
{
    if j < t.len() {
        let u = t.drop_last();
        assert(all_digits(u));
        lemma_digits_value_prefix(u, j);
        assert(u.subrange(0, j) =~= t.subrange(0, j));
    } else {
        assert(t.subrange(0, j) =~= t);
    }
}

proof fn lemma_overflow_is_none(s: Seq<char>, start: int, end: int)
    requires
        0 < start < end <= s.len(),
        first_digit_from(s, 0) == start,
        all_letters(s.subrange(0, start)),
        all_digits(s.subrange(start, end)),
        digits_value(s.subrange(start, end)) > u32::MAX,
    ensures
        a1_row(s) is None,
{
    let digits = s.subrange(start, s.len() as int);
    if all_digits(digits) {
        lemma_digits_value_prefix(digits, end - start);
        assert(digits.subrange(0, end - start) =~= s.subrange(start, end));
    }
}

/// Inverse of the row-component of `to_a1`. Extracts the row number from an
/// A1-style cell address. Returns `None` if the address is malformed:
/// - empty string
/// - no leading letters
/// - no trailing digits
/// - digit prefix is "0" (row 0 is not a valid A1 row)
pub fn row_from_a1(cell: &str) -> (r: Option<u32>)
    ensures
        r == a1_row(cell@),
{
    let ghost s = cell@;
    let ghost mut start: int = 0;
    let mut seen_digit = false;
    let mut at_start = true;
    let mut value: u32 = 0;
    for c in it: cell.chars()
        invariant
            it.seq() == s,
            s == cell@,
            at_start == (it.index() == 0),
            !seen_digit ==> first_digit_from(s, 0) == first_digit_from(s, it.index() as int),
            !seen_digit ==> all_letters(s.subrange(0, it.index() as int)),
            seen_digit ==> all_letters(s.subrange(0, start)),
            seen_digit ==> 0 < start < it.index(),
            seen_digit ==> first_digit_from(s, 0) == start,
            seen_digit ==> all_digits(s.subrange(start, it.index() as int)),
            seen_digit ==> value == digits_value(s.subrange(start, it.index() as int)),
    {
        let ghost idx = it.index() as int;
        assert(c == s[idx]);
        proof { lemma_first_digit_bounds(s, 0); }
        if '0' <= c && c <= '9' {
            let d = (c as u32) - 48;
            if !seen_digit {
                if at_start {
                    assert(first_digit_from(s, 0) == 0);
                    assert(a1_row(cell@) is None);
                    return None;
                }
                assert(first_digit_from(s, idx) == idx);
                seen_digit = true;
                proof {
                    start = idx;
                    assert(s.subrange(start, idx + 1).drop_last() =~= s.subrange(start, idx));
                    assert(digits_value(s.subrange(start, idx)) == 0);
                }
                value = d;
            } else {
                let ghost next = s.subrange(start, idx + 1);
                proof {
                    assert(next.drop_last() =~= s.subrange(start, idx));
                    assert(digits_value(next) == value * 10 + d);
                }
                match value.checked_mul(10) {
                    Some(v10) => match v10.checked_add(d) {
                        Some(v) => {
                            value = v;
                        },
                        None => {
                            proof { lemma_overflow_is_none(s, start, idx + 1); }
                            assert(a1_row(cell@) is None);
                            return None;
                        },
                    },
                    None => {
                        proof { lemma_overflow_is_none(s, start, idx + 1); }
                        assert(a1_row(cell@) is None);
                        return None;
                    },
                }
            }
            assert(all_digits(s.subrange(start, idx + 1)));
        } else if seen_digit {
            proof {
                let digits = s.subrange(start, s.len() as int);
                assert(!is_digit(digits[idx - start]));
                assert(!all_digits(digits));
            }
            assert(a1_row(cell@) is None);
            return None;
        } else {
            proof { lemma_first_digit_skip(s, idx, idx + 1); }
            if !(('A' <= c && c <= 'Z') || ('a' <= c && c <= 'z')) {
                proof {
                    lemma_first_digit_bounds(s, idx);
                    let k = first_digit_from(s, 0);
                    if 0 < k < s.len() {
                        assert(s.subrange(0, k)[idx] == c);
                        assert(!all_letters(s.subrange(0, k)));
                    }
                }
                assert(a1_row(cell@) is None);
                return None;
            }
            assert(s.subrange(0, idx + 1) =~= s.subrange(0, idx).push(c));
        }
        at_start = false;
    }
    if !seen_digit || value == 0 {
        return None;
    }
    Some(value)
}

proof fn lemma_col_letters_are_letters(n: nat)
    ensures
        n > 0 ==> col_letters(n).len() > 0,
        forall|i: int| 0 <= i < col_letters(n).len() ==> is_letter(#[trigger] col_letters(n)[i]),
    decreases n,
{
    if n > 0 {
        lemma_col_letters_are_letters(((n - 1) / 26) as nat);
        let d = (n - 1) % 26;
        assert(letter(d) as int == 65 + d);
        assert(is_letter(letter(d)));
        let prev = col_letters(((n - 1) / 26) as nat);
        assert forall|i: int| 0 <= i < col_letters(n).len() implies is_letter(
            #[trigger] col_letters(n)[i],
        ) by {
            if i < prev.len() {
                assert(col_letters(n)[i] == prev[i]);
            }
        }
    }
}

proof fn lemma_decimal_digits(n: nat)
    ensures
        decimal(n).len() > 0,
        all_digits(decimal(n)),
        digits_value(decimal(n)) == n,
    decreases n,
{
    if n >= 10 {
        lemma_decimal_digits(n / 10);
        assert(decimal(n).drop_last() =~= decimal(n / 10));
        assert(digit_char((n % 10) as int) as int == 48 + n % 10);
        assert(decimal(n).last() == digit_char((n % 10) as int));
        assert(digits_value(decimal(n)) == digits_value(decimal(n / 10)) * 10 + n % 10);
        assert(n / 10 * 10 + n % 10 == n);
    } else {
        assert(decimal(n).drop_last() =~= Seq::<char>::empty());
        assert(digit_char(n as int) as int == 48 + n);
        assert(digits_value(Seq::<char>::empty()) == 0);
    }
}

/// Reading the row back from an address that `to_a1` wrote gives the
/// 1-based row: `row_from_a1(&to_a1(r, c)) == Some(r + 1)`.
pub proof fn lemma_row_from_a1_inverts_to_a1(row: nat, col: nat)
    requires
        row < u32::MAX,
    ensures
        a1_row(a1(row, col)) == Some((row + 1) as u32),
{
    let letters = col_letters(col + 1);
    let digits = decimal(row + 1);
    let s = a1(row, col);
    lemma_col_letters_are_letters(col + 1);
    lemma_decimal_digits(row + 1);
    let k = letters.len() as int;
    assert forall|t: int| 0 <= t < k implies !is_digit(#[trigger] s[t]) by {
        assert(s[t] == letters[t]);
        assert(is_letter(letters[t]));
    }
    assert(s.subrange(0, k) =~= letters);
    lemma_first_digit_skip(s, 0, k);
    assert(s[k] == digits[0]);
    assert(first_digit_from(s, k) == k);
    assert(s.subrange(k, s.len() as int) =~= digits);
}

} // verus!
