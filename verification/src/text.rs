//! Character-level text helpers: hexadecimal parsing, substring search,
//! whitespace trimming, separator splitting, and the lowercasing primitive
//! that the matching policy is built on.

use vstd::prelude::*;

verus! {

// ---------------------------------------------------------------------------
// Hexadecimal parsing
// ---------------------------------------------------------------------------

/// Is `c` an ASCII hexadecimal digit?
pub open spec fn is_hex_digit(c: char) -> bool {
    (48 <= c as u32 && c as u32 <= 57)  // '0'..='9'
    || (97 <= c as u32 && c as u32 <= 102)  // 'a'..='f'
    || (65 <= c as u32 && c as u32 <= 70)  // 'A'..='F'
}

/// Numeric value of a hexadecimal digit.
pub open spec fn hex_digit_value(c: char) -> int {
    if 48 <= c as u32 && c as u32 <= 57 {
        c as u32 - 48
    } else if 97 <= c as u32 && c as u32 <= 102 {
        c as u32 - 87
    } else {
        c as u32 - 55
    }
}

/// Value of a string of hexadecimal digits, most significant first.
pub open spec fn hex_value(s: Seq<char>) -> int
    decreases s.len(),
{
    if s.len() == 0 {
        0
    } else {
        hex_value(s.drop_last()) * 16 + hex_digit_value(s.last())
    }
}

/// The digit part of a numeral: everything after an optional leading sign.
pub open spec fn numeral_digits(s: Seq<char>) -> Seq<char> {
    if s.len() > 0 && (s[0] == '+' || s[0] == '-') {
        s.drop_first()
    } else {
        s
    }
}

/// Meaning of a base-16 `u32` numeral: an optional sign, then one or more
/// hexadecimal digits, with the value required to fit in a `u32` (a negative
/// sign is only accepted on a zero value).
pub open spec fn parse_hex_u32(s: Seq<char>) -> Option<u32> {
    let digits = numeral_digits(s);
    if digits.len() == 0 || (exists|i: int| 0 <= i < digits.len() && !is_hex_digit(digits[i])) {
        None
    } else if s[0] == '-' {
        if hex_value(digits) == 0 {
            Some(0u32)
        } else {
            None
        }
    } else if hex_value(digits) > u32::MAX {
        None
    } else {
        Some(hex_value(digits) as u32)
    }
}

proof fn lemma_hex_digit_value_bounds(c: char)
    requires
        is_hex_digit(c),
    ensures
        0 <= hex_digit_value(c) < 16,
{
}

proof fn lemma_hex_value_nonneg(s: Seq<char>)
    requires
        forall|i: int| 0 <= i < s.len() ==> is_hex_digit(#[trigger] s[i]),
    ensures
        hex_value(s) >= 0,
    decreases s.len(),
{
    if s.len() > 0 {
        lemma_hex_value_nonneg(s.drop_last());
    }
}

/// Appending one digit multiplies the value by 16 and adds the digit.
proof fn lemma_hex_value_step(s: Seq<char>, i: int)
    requires
        0 <= i < s.len(),
    ensures
        hex_value(s.take(i + 1)) == hex_value(s.take(i)) * 16 + hex_digit_value(s[i]),
{
    assert(s.take(i + 1).drop_last() =~= s.take(i));
    assert(s.take(i + 1).last() == s[i]);
}

/// The value of a digit string only grows as more digits are appended.
proof fn lemma_hex_value_prefix_le(s: Seq<char>, i: int)
    requires
        forall|k: int| 0 <= k < s.len() ==> is_hex_digit(#[trigger] s[k]),
        0 <= i <= s.len(),
    ensures
        hex_value(s.take(i)) <= hex_value(s),
    decreases s.len() - i,
{
    if i < s.len() {
        lemma_hex_value_step(s, i);
        assert(forall|k: int| 0 <= k < s.take(i).len() ==> is_hex_digit(#[trigger] s.take(i)[k]));
        lemma_hex_value_nonneg(s.take(i));
        lemma_hex_digit_value_bounds(s[i]);
        lemma_hex_value_prefix_le(s, i + 1);
    } else {
        assert(s.take(i) =~= s);
    }
}

fn hex_digit_of(c: char) -> (r: Option<u32>)
    ensures
        r is Some <==> is_hex_digit(c),
        r is Some ==> r->0 == hex_digit_value(c),
{
    let u: u32 = c as u32;
    if 48 <= u && u <= 57 {
        Some(u - 48)
    } else if 97 <= u && u <= 102 {
        Some(u - 87)
    } else if 65 <= u && u <= 70 {
        Some(u - 55)
    } else {
        None
    }
}

/// Parse the characters of `s` from position `start` onward as a base-16
/// `u32` numeral, as [`parse_hex_u32`] describes.
pub fn parse_hex_suffix(s: &str, start: usize) -> (r: Option<u32>)
    requires
        start <= s@.len(),
    ensures
        r == parse_hex_u32(s@.skip(start as int)),
{
    let ghost t: Seq<char> = s@.skip(start as int);
    let n: usize = s.unicode_len();
    let mut i = start;
    let mut neg = false;
    if i < n {
        let c0 = s.get_char(i);
        if c0 == '+' {
            i = i + 1;
        } else if c0 == '-' {
            neg = true;
            i = i + 1;
        }
    }
    let ghost digits = numeral_digits(t);
    proof {
        assert(digits =~= s@.skip(i as int));
    }
    if i == n {
        return None;
    }
    let digit_start = i;
    let mut acc: u32 = 0;
    while i < n
        invariant
            start <= digit_start <= i <= n,
            digit_start < n,
            n == s@.len(),
            digits == numeral_digits(s@.skip(start as int)),
            digits =~= s@.skip(digit_start as int),
            forall|k: int| 0 <= k < i - digit_start ==> is_hex_digit(#[trigger] digits[k]),
            acc == hex_value(digits.take(i - digit_start)),
        decreases n - i,
    {
        let c = s.get_char(i);
        proof {
            assert(digits[i - digit_start] == c);
        }
        match hex_digit_of(c) {
            None => {
                proof {
                    assert(0 <= i - digit_start < digits.len() && !is_hex_digit(
                        digits[i - digit_start],
                    ));
                    assert(exists|k: int| 0 <= k < digits.len() && !is_hex_digit(digits[k]));
                    assert(parse_hex_u32(s@.skip(start as int)) is None);
                }
                return None;
            },
            Some(d) => {
                proof {
                    lemma_hex_value_step(digits, i - digit_start);
                    lemma_hex_digit_value_bounds(c);
                }
                let wide: u64 = acc as u64 * 16 + d as u64;
                if wide > u32::MAX as u64 {
                    // The value no longer fits in a `u32`; whatever follows,
                    // the numeral is rejected (as an invalid digit if one
                    // comes later, as an overflow otherwise).
                    proof {
                        if forall|k: int|
                            0 <= k < digits.len() ==> is_hex_digit(#[trigger] digits[k]) {
                            lemma_hex_value_prefix_le(digits, i - digit_start + 1);
                            assert(hex_value(digits) > u32::MAX);
                        } else {
                            assert(exists|k: int|
                                0 <= k < digits.len() && !is_hex_digit(digits[k]));
                        }
                        assert(parse_hex_u32(s@.skip(start as int)) is None);
                    }
                    return None;
                }
                acc = wide as u32;
            },
        }
        i = i + 1;
    }
    proof {
        assert(digits.take(n - digit_start) =~= digits);
    }
    if neg {
        if acc == 0 {
            Some(0)
        } else {
            None
        }
    } else {
        Some(acc)
    }
}

// ---------------------------------------------------------------------------
// Substring search
// ---------------------------------------------------------------------------

/// `needle` occurs in `hay` as a contiguous substring starting at `i`.
pub open spec fn occurs_at(hay: Seq<char>, needle: Seq<char>, i: int) -> bool {
    0 <= i && i + needle.len() <= hay.len() && hay.subrange(i, i + needle.len()) == needle
}

/// `needle` occurs somewhere in `hay` as a contiguous substring.
pub open spec fn contains_seq(hay: Seq<char>, needle: Seq<char>) -> bool {
    exists|i: int| occurs_at(hay, needle, i)
}

/// Find the first character position at which `needle` occurs in `hay`.
pub fn find_sub(hay: &str, needle: &str) -> (r: Option<usize>)
    ensures
        match r {
            Some(i) => occurs_at(hay@, needle@, i as int) && forall|j: int|
                0 <= j < i ==> !occurs_at(hay@, needle@, j),
            None => !contains_seq(hay@, needle@),
        },
{
    let n: usize = hay.unicode_len();
    let m: usize = needle.unicode_len();
    if m > n {
        return None;
    }
    let mut i: usize = 0;
    while i <= n - m
        invariant
            m <= n,
            n == hay@.len(),
            m == needle@.len(),
            i <= n - m + 1,
            forall|j: int| 0 <= j < i ==> !occurs_at(hay@, needle@, j),
        decreases n - m + 1 - i,
    {
        let mut j: usize = 0;
        let mut all_eq = true;
        while j < m
            invariant
                i + m <= n,
                n == hay@.len(),
                m == needle@.len(),
                j <= m,
                all_eq <==> (forall|k: int| 0 <= k < j ==> hay@[i + k] == needle@[k]),
            decreases m - j,
        {
            if hay.get_char(i + j) != needle.get_char(j) {
                all_eq = false;
                proof {
                    assert(!(forall|k: int| 0 <= k < j + 1 ==> hay@[i + k] == needle@[k]));
                }
                j = m;
            } else {
                j = j + 1;
            }
        }
        if all_eq {
            proof {
                assert(hay@.subrange(i as int, i + needle@.len()) =~= needle@);
            }
            return Some(i);
        }
        proof {
            if occurs_at(hay@, needle@, i as int) {
                assert(forall|k: int|
                    0 <= k < m ==> #[trigger] hay@.subrange(i as int, i + m)[k] == hay@[i + k]);
            }
        }
        i = i + 1;
    }
    proof {
        assert(forall|j: int| i <= j ==> !occurs_at(hay@, needle@, j));
    }
    None
}

/// Does `needle` occur in `hay` as a contiguous substring?
pub fn contains_sub(hay: &str, needle: &str) -> (r: bool)
    ensures
        r == contains_seq(hay@, needle@),
{
    find_sub(hay, needle).is_some()
}

// ---------------------------------------------------------------------------
// Whitespace trimming
// ---------------------------------------------------------------------------

/// Is `c` an ASCII whitespace character?
pub open spec fn is_ascii_ws(c: char) -> bool {
    c == ' ' || c == '\t' || c == '\n' || c == '\r'
}

/// `s` with leading and trailing ASCII whitespace removed.
pub open spec fn trim_spec(s: Seq<char>) -> Seq<char>
    decreases s.len(),
{
    if s.len() == 0 {
        s
    } else if is_ascii_ws(s[0]) {
        trim_spec(s.drop_first())
    } else if is_ascii_ws(s.last()) {
        trim_spec(s.drop_last())
    } else {
        s
    }
}

proof fn lemma_trim_subrange(s: Seq<char>, a: int, b: int)
    requires
        0 <= a <= b <= s.len(),
        forall|k: int| 0 <= k < a ==> is_ascii_ws(#[trigger] s[k]),
        forall|k: int| b <= k < s.len() ==> is_ascii_ws(#[trigger] s[k]),
        a < b ==> !is_ascii_ws(s[a]) && !is_ascii_ws(s[b - 1]),
        a == b ==> b == s.len(),
    ensures
        trim_spec(s) == s.subrange(a, b),
    decreases s.len(),
{
    if s.len() == 0 {
        assert(s.subrange(a, b) =~= s);
    } else if a > 0 {
        lemma_trim_subrange(s.drop_first(), a - 1, b - 1);
        assert(s.drop_first().subrange(a - 1, b - 1) =~= s.subrange(a, b));
    } else if b < s.len() {
        assert(is_ascii_ws(s.last()));
        lemma_trim_subrange(s.drop_last(), a, b);
        assert(s.drop_last().subrange(a, b) =~= s.subrange(a, b));
    } else {
        assert(s.subrange(a, b) =~= s);
    }
}

fn is_ws_char(c: char) -> (r: bool)
    ensures
        r == is_ascii_ws(c),
{
    c == ' ' || c == '\t' || c == '\n' || c == '\r'
}

/// `s` with leading and trailing ASCII whitespace removed.
pub fn trim_ascii_ws(s: &str) -> (r: String)
    ensures
        r@ == trim_spec(s@),
{
    let n: usize = s.unicode_len();
    let mut a: usize = 0;
    while a < n && is_ws_char(s.get_char(a))
        invariant
            a <= n,
            n == s@.len(),
            forall|k: int| 0 <= k < a ==> is_ascii_ws(#[trigger] s@[k]),
        decreases n - a,
    {
        a = a + 1;
    }
    let mut b: usize = n;
    while b > a && is_ws_char(s.get_char(b - 1))
        invariant
            a <= b <= n,
            n == s@.len(),
            forall|k: int| 0 <= k < a ==> is_ascii_ws(#[trigger] s@[k]),
            a < n ==> !is_ascii_ws(s@[a as int]),
            forall|k: int| b <= k < n ==> is_ascii_ws(#[trigger] s@[k]),
        decreases b,
    {
        b = b - 1;
    }
    proof {
        lemma_trim_subrange(s@, a as int, b as int);
    }
    let sub = s.substring_char(a, b);
    sub.to_owned()
}

// ---------------------------------------------------------------------------
// Splitting on a separator character
// ---------------------------------------------------------------------------

/// The fields of `s` between occurrences of `sep`: an empty sequence yields
/// one empty field, and every occurrence of `sep` closes the field before it.
pub open spec fn split_spec(s: Seq<char>, sep: char) -> Seq<Seq<char>>
    decreases s.len(),
{
    if s.len() == 0 {
        seq![Seq::<char>::empty()]
    } else {
        let rest = split_spec(s.drop_last(), sep);
        if s.last() == sep {
            rest.push(Seq::<char>::empty())
        } else {
            rest.update(rest.len() - 1, rest.last().push(s.last()))
        }
    }
}

/// `split_spec` always yields at least one field.
pub proof fn lemma_split_len(s: Seq<char>, sep: char)
    ensures
        split_spec(s, sep).len() >= 1,
    decreases s.len(),
{
    if s.len() > 0 {
        lemma_split_len(s.drop_last(), sep);
    }
}

/// The view of each field of a split, as a sequence of character sequences.
pub open spec fn views_of(fields: Seq<String>) -> Seq<Seq<char>> {
    fields.map_values(|f: String| f@)
}

/// Split `s` into its fields around the separator `sep`.
pub fn split_char(s: &str, sep: char) -> (r: Vec<String>)
    ensures
        views_of(r@) == split_spec(s@, sep),
        r@.len() >= 1,
{
    let n: usize = s.unicode_len();
    let mut res: Vec<String> = Vec::new();
    let mut seg_start: usize = 0;
    let mut i: usize = 0;
    proof {
        assert(s@.take(0) =~= Seq::<char>::empty());
        assert(views_of(res@) + seq![s@.subrange(0, 0)] =~= split_spec(s@.take(0), sep));
    }
    while i < n
        invariant
            seg_start <= i <= n,
            n == s@.len(),
            views_of(res@) + seq![s@.subrange(seg_start as int, i as int)] == split_spec(
                s@.take(i as int),
                sep,
            ),
        decreases n - i,
    {
        let c = s.get_char(i);
        proof {
            assert(s@.take(i + 1).drop_last() =~= s@.take(i as int));
            assert(s@.take(i + 1).last() == s@[i as int]);
        }
        if c == sep {
            let piece = s.substring_char(seg_start, i).to_owned();
            res.push(piece);
            proof {
                assert(views_of(res@) =~= split_spec(s@.take(i as int), sep));
                assert(s@.subrange(i + 1, i + 1) =~= Seq::<char>::empty());
                assert(views_of(res@) + seq![s@.subrange(i + 1, i + 1)] =~= split_spec(
                    s@.take(i + 1),
                    sep,
                ));
            }
            seg_start = i + 1;
        } else {
            proof {
                let prev = views_of(res@) + seq![s@.subrange(seg_start as int, i as int)];
                assert(prev.last() == s@.subrange(seg_start as int, i as int));
                assert(prev.last().push(s@[i as int]) =~= s@.subrange(seg_start as int, i + 1));
                assert(views_of(res@) + seq![s@.subrange(seg_start as int, i + 1)] =~= prev.update(
                    prev.len() - 1,
                    prev.last().push(s@[i as int]),
                ));
            }
        }
        i = i + 1;
    }
    let piece = s.substring_char(seg_start, n).to_owned();
    res.push(piece);
    proof {
        assert(s@.take(n as int) =~= s@);
        assert(views_of(res@) =~= split_spec(s@, sep));
    }
    res
}

// ---------------------------------------------------------------------------
// Lowercasing
// ---------------------------------------------------------------------------

/// The Unicode lowercase form of a character sequence; what
/// `str::to_lowercase` returns, named but not otherwise specified.
pub uninterp spec fn lower_of(s: Seq<char>) -> Seq<char>;

/// Relies on `str::to_lowercase`: the Unicode lowercase of the string,
/// a function of its characters alone.
#[verifier::external_body]
pub fn to_lowercase(s: &str) -> (r: String)
    ensures
        r@ == lower_of(s@),
{
    s.to_lowercase()
}

} // verus!
