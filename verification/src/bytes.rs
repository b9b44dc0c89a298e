//! Byte-string utilities: substring search, splitting on a separator,
//! prefix/suffix tests, and numeric parsing.
//!
//! Log lines are ASCII text handled as byte strings. Every executable
//! function here is specified against a spec-level definition over
//! `Seq<u8>`.

use vstd::prelude::*;

verus! {

/// `pat` occurs in `s` at position `i`.
pub open spec fn is_match_at(s: Seq<u8>, pat: Seq<u8>, i: int) -> bool {
    0 <= i && i + pat.len() <= s.len() && s.subrange(i, i + pat.len()) == pat
}

/// Position of the first occurrence of `pat` in `s` at or after `from`.
/// An empty pattern is never searched for.
pub open spec fn find_from(s: Seq<u8>, pat: Seq<u8>, from: int) -> Option<int>
    decreases s.len() - from,
{
    if pat.len() == 0 || from < 0 || from + pat.len() > s.len() {
        None
    } else if is_match_at(s, pat, from) {
        Some(from)
    } else {
        find_from(s, pat, from + 1)
    }
}

/// What `find_from` returns: the first match position, before which
/// nothing matches.
pub proof fn lemma_find_from(s: Seq<u8>, pat: Seq<u8>, from: int)
    requires
        0 <= from,
        pat.len() >= 1,
    ensures
        match find_from(s, pat, from) {
            Some(i) => from <= i && is_match_at(s, pat, i) && forall|j: int|
                from <= j < i ==> !is_match_at(s, pat, j),
            None => forall|j: int| from <= j ==> !is_match_at(s, pat, j),
        },
    decreases s.len() - from,
{
    if from + pat.len() > s.len() {
        assert(forall|j: int| from <= j ==> !is_match_at(s, pat, j));
    } else if is_match_at(s, pat, from) {
    } else {
        lemma_find_from(s, pat, from + 1);
    }
}

/// Whether `s` begins with `pre`.
pub open spec fn starts_with_spec(s: Seq<u8>, pre: Seq<u8>) -> bool {
    is_match_at(s, pre, 0)
}

/// Whether `s` ends with `suf`.
pub open spec fn ends_with_spec(s: Seq<u8>, suf: Seq<u8>) -> bool {
    is_match_at(s, suf, s.len() - suf.len())
}

/// Compare two byte slices for equality.
pub fn bytes_eq(a: &[u8], b: &[u8]) -> (r: bool)
    ensures
        r == (a@ == b@),
{
    if a.len() != b.len() {
        assert(a@ != b@) by {
            assert(a@.len() != b@.len());
        }
        return false;
    }
    let n = a.len();
    let mut i: usize = 0;
    while i < n
        invariant
            n == a.len() == b.len(),
            0 <= i <= n,
            forall|j: int| 0 <= j < i ==> a@[j] == b@[j],
        decreases n - i,
    {
        if a[i] != b[i] {
            return false;
        }
        i += 1;
    }
    proof {
        assert(a@ =~= b@);
    }
    true
}

/// Test whether `pat` occurs in `s` at position `i`.
pub fn match_at(s: &[u8], pat: &[u8], i: usize) -> (r: bool)
    ensures
        r == is_match_at(s@, pat@, i as int),
{
    if i > s.len() || pat.len() > s.len() - i {
        assert(!is_match_at(s@, pat@, i as int));
        return false;
    }
    let mut j: usize = 0;
    while j < pat.len()
        invariant
            i + pat.len() <= s.len(),
            0 <= j <= pat.len(),
            forall|k: int| 0 <= k < j ==> s@[i + k] == pat@[k],
        decreases pat.len() - j,
    {
        if s[i + j] != pat[j] {
            assert(s@.subrange(i as int, i + pat@.len())[j as int] != pat@[j as int]);
            return false;
        }
        j += 1;
    }
    proof {
        assert(s@.subrange(i as int, i + pat@.len()) =~= pat@);
    }
    true
}

/// Find the first occurrence of `pat` in `s` at or after `from`.
pub fn find_sub(s: &[u8], pat: &[u8], from: usize) -> (r: Option<usize>)
    requires
        pat.len() >= 1,
    ensures
        match r {
            Some(i) => Some(i as int) == find_from(s@, pat@, from as int),
            None => find_from(s@, pat@, from as int) is None,
        },
{
    if pat.len() > s.len() || from > s.len() - pat.len() {
        return None;
    }
    let max = s.len() - pat.len();
    let mut i: usize = from;
    while i <= max
        invariant
            pat.len() >= 1,
            max == s.len() - pat.len(),
            from <= i <= max + 1,
            find_from(s@, pat@, from as int) == find_from(s@, pat@, i as int),
        decreases max + 1 - i,
    {
        if match_at(s, pat, i) {
            return Some(i);
        }
        i += 1;
    }
    None
}

/// Whether `s` begins with `pre`.
pub fn starts_with(s: &[u8], pre: &[u8]) -> (r: bool)
    ensures
        r == starts_with_spec(s@, pre@),
{
    match_at(s, pre, 0)
}

/// Whether `s` ends with `suf`.
pub fn ends_with(s: &[u8], suf: &[u8]) -> (r: bool)
    ensures
        r == ends_with_spec(s@, suf@),
{
    if suf.len() > s.len() {
        assert(!is_match_at(s@, suf@, s@.len() - suf@.len()));
        return false;
    }
    match_at(s, suf, s.len() - suf.len())
}

/// Whether `pat` occurs anywhere in `s`.
pub fn contains_sub(s: &[u8], pat: &[u8]) -> (r: bool)
    requires
        pat.len() >= 1,
    ensures
        r == (find_from(s@, pat@, 0) is Some),
{
    find_sub(s, pat, 0).is_some()
}

/// Copy the byte range `[from, to)` of `s` into a fresh vector.
pub fn sub_vec(s: &[u8], from: usize, to: usize) -> (r: Vec<u8>)
    requires
        from <= to <= s.len(),
    ensures
        r@ == s@.subrange(from as int, to as int),
{
    let mut r: Vec<u8> = Vec::new();
    let mut i: usize = from;
    while i < to
        invariant
            from <= i <= to <= s.len(),
            r@ == s@.subrange(from as int, i as int),
        decreases to - i,
    {
        r.push(s[i]);
        proof {
            assert(r@ =~= s@.subrange(from as int, i + 1));
        }
        i += 1;
    }
    r
}

/// The pieces of `s` cut at every occurrence of `sep`, scanned left to
/// right; a separator occurrence is consumed and never overlaps an
/// earlier one.
pub open spec fn split_spec(s: Seq<u8>, sep: Seq<u8>) -> Seq<Seq<u8>>
    decreases s.len(),
    when sep.len() >= 1
    via split_spec_decreases
{
    match find_from(s, sep, 0) {
        None => seq![s],
        Some(i) => seq![s.subrange(0, i)] + split_spec(
            s.subrange(i + sep.len(), s.len() as int),
            sep,
        ),
    }
}

#[via_fn]
proof fn split_spec_decreases(s: Seq<u8>, sep: Seq<u8>) {
    lemma_find_from(s, sep, 0);
}

/// Shifting the search start left of any match keeps the result:
/// searching a suffix relates to searching the whole.
pub proof fn lemma_find_from_suffix(s: Seq<u8>, pat: Seq<u8>, start: int, from: int)
    requires
        0 <= start <= s.len(),
        0 <= from,
        pat.len() >= 1,
    ensures
        match find_from(s.subrange(start, s.len() as int), pat, from) {
            Some(i) => find_from(s, pat, start + from) == Some(start + i),
            None => find_from(s, pat, start + from) is None,
        },
    decreases s.len() - start - from,
{
    let suf = s.subrange(start, s.len() as int);
    if from + pat.len() > suf.len() {
    } else {
        assert(is_match_at(suf, pat, from) == is_match_at(s, pat, start + from)) by {
            if 0 <= from && from + pat.len() <= suf.len() {
                assert(suf.subrange(from, from + pat.len()) =~= s.subrange(
                    start + from,
                    start + from + pat.len(),
                ));
            }
        }
        if is_match_at(suf, pat, from) {
        } else {
            lemma_find_from_suffix(s, pat, start, from + 1);
        }
    }
}

/// Split `s` on `sep`.
pub fn split_bytes(s: &[u8], sep: &[u8]) -> (r: Vec<Vec<u8>>)
    requires
        sep.len() >= 1,
    ensures
        r@.map_values(|p: Vec<u8>| p@) == split_spec(s@, sep@),
{
    let mut r: Vec<Vec<u8>> = Vec::new();
    let mut start: usize = 0;
    proof {
        assert(s@.subrange(0, s@.len() as int) =~= s@);
        assert(r@.map_values(|p: Vec<u8>| p@) + split_spec(s@, sep@) =~= split_spec(s@, sep@));
    }
    loop
        invariant
            sep.len() >= 1,
            0 <= start <= s.len(),
            r@.map_values(|p: Vec<u8>| p@) + split_spec(
                s@.subrange(start as int, s@.len() as int),
                sep@,
            ) == split_spec(s@, sep@),
        decreases s.len() - start,
    {
        let ghost suf = s@.subrange(start as int, s@.len() as int);
        proof {
            lemma_find_from_suffix(s@, sep@, start as int, 0);
            lemma_find_from(s@, sep@, start as int);
        }
        let ghost old_r = r@;
        match find_sub(s, sep, start) {
            None => {
                let piece = sub_vec(s, start, s.len());
                r.push(piece);
                proof {
                    assert(split_spec(suf, sep@) =~= seq![suf]);
                    assert(r@.map_values(|p: Vec<u8>| p@) =~= old_r.map_values(
                        |p: Vec<u8>| p@,
                    ).push(suf));
                    assert(r@.map_values(|p: Vec<u8>| p@) =~= split_spec(s@, sep@));
                }
                return r;
            },
            Some(i) => {
                let piece = sub_vec(s, start, i);
                r.push(piece);
                let new_start = i + sep.len();
                proof {
                    let rel = i - start;
                    assert(find_from(suf, sep@, 0) == Some(rel));
                    assert(split_spec(suf, sep@) == seq![suf.subrange(0, rel)] + split_spec(
                        suf.subrange(rel + sep@.len(), suf.len() as int),
                        sep@,
                    ));
                    assert(suf.subrange(0, rel) =~= s@.subrange(start as int, i as int));
                    assert(suf.subrange(rel + sep@.len(), suf.len() as int) =~= s@.subrange(
                        new_start as int,
                        s@.len() as int,
                    ));
                    assert(r@.map_values(|p: Vec<u8>| p@) =~= old_r.map_values(
                        |p: Vec<u8>| p@,
                    ).push(s@.subrange(start as int, i as int)));
                    assert(r@.map_values(|p: Vec<u8>| p@) + split_spec(
                        s@.subrange(new_start as int, s@.len() as int),
                        sep@,
                    ) =~= split_spec(s@, sep@));
                }
                start = new_start;
            },
        }
    }
}

/// ASCII decimal digit.
pub open spec fn is_digit(b: u8) -> bool {
    48 <= b <= 57
}

/// ASCII word character: letter, digit or underscore.
pub open spec fn is_word_byte(b: u8) -> bool {
    is_digit(b) || (65 <= b <= 90) || (97 <= b <= 122) || b == 95
}

/// ASCII hexadecimal digit.
pub open spec fn is_hex_digit(b: u8) -> bool {
    is_digit(b) || (97 <= b <= 102) || (65 <= b <= 70)
}

/// Numeric value of a hexadecimal digit.
pub open spec fn hex_digit_val(b: u8) -> nat {
    if is_digit(b) {
        (b - 48) as nat
    } else if 97 <= b <= 102 {
        (b - 87) as nat
    } else if 65 <= b <= 70 {
        (b - 55) as nat
    } else {
        0
    }
}

/// Every byte of `s` satisfies the digit predicate.
pub open spec fn all_digits(s: Seq<u8>) -> bool {
    forall|i: int| 0 <= i < s.len() ==> is_digit(#[trigger] s[i])
}

/// Every byte of `s` is a hexadecimal digit.
pub open spec fn all_hex_digits(s: Seq<u8>) -> bool {
    forall|i: int| 0 <= i < s.len() ==> is_hex_digit(#[trigger] s[i])
}

/// Value of `s` read as a hexadecimal numeral, most significant digit
/// first.
pub open spec fn hex_val(s: Seq<u8>) -> nat
    decreases s.len(),
{
    if s.len() == 0 {
        0
    } else {
        hex_val(s.drop_last()) * 16 + hex_digit_val(s.last())
    }
}

/// Value of `s` read as a decimal numeral, most significant digit first.
pub open spec fn dec_val(s: Seq<u8>) -> nat
    decreases s.len(),
{
    if s.len() == 0 {
        0
    } else {
        dec_val(s.drop_last()) * 10 + (s.last() - 48) as nat
    }
}

/// A longer prefix of a numeral never has a smaller value.
proof fn lemma_hex_val_prefix_le(s: Seq<u8>, i: int, j: int)
    requires
        0 <= i <= j <= s.len(),
    ensures
        hex_val(s.subrange(0, i)) <= hex_val(s.subrange(0, j)),
    decreases j - i,
{
    if i < j {
        lemma_hex_val_prefix_le(s, i, j - 1);
        assert(s.subrange(0, j).drop_last() =~= s.subrange(0, j - 1));
        assert(hex_val(s.subrange(0, j)) == hex_val(s.subrange(0, j - 1)) * 16 + hex_digit_val(
            s.subrange(0, j).last(),
        ));
    }
}

proof fn lemma_dec_val_prefix_le(s: Seq<u8>, i: int, j: int)
    requires
        0 <= i <= j <= s.len(),
    ensures
        dec_val(s.subrange(0, i)) <= dec_val(s.subrange(0, j)),
    decreases j - i,
{
    if i < j {
        lemma_dec_val_prefix_le(s, i, j - 1);
        assert(s.subrange(0, j).drop_last() =~= s.subrange(0, j - 1));
        assert(dec_val(s.subrange(0, j)) == dec_val(s.subrange(0, j - 1)) * 10 + (s.subrange(
            0,
            j,
        ).last() - 48) as nat);
    }
}

/// Parse `s` as a hexadecimal numeral. Returns the value exactly when
/// `s` is non-empty, all hexadecimal digits, and fits in a `u64`.
pub fn parse_hex_u64(s: &[u8]) -> (r: Option<u64>)
    ensures
        match r {
            Some(v) => s@.len() >= 1 && all_hex_digits(s@) && hex_val(s@) <= u64::MAX && v
                == hex_val(s@),
            None => s@.len() == 0 || !all_hex_digits(s@) || hex_val(s@) > u64::MAX,
        },
{
    if s.len() == 0 {
        return None;
    }
    let mut acc: u64 = 0;
    let mut i: usize = 0;
    while i < s.len()
        invariant
            0 <= i <= s.len(),
            all_hex_digits(s@.subrange(0, i as int)),
            acc == hex_val(s@.subrange(0, i as int)),
        decreases s.len() - i,
    {
        let b = s[i];
        let d: u64;
        if 48 <= b && b <= 57 {
            d = (b - 48) as u64;
        } else if 97 <= b && b <= 102 {
            d = (b - 87) as u64;
        } else if 65 <= b && b <= 70 {
            d = (b - 55) as u64;
        } else {
            assert(!is_hex_digit(s@[i as int]));
            return None;
        }
        if acc > (u64::MAX - d) / 16 {
            proof {
                let pre = s@.subrange(0, i + 1);
                assert(pre.drop_last() =~= s@.subrange(0, i as int));
                assert(hex_val(pre) == acc * 16 + d);
                lemma_hex_val_prefix_le(s@, i + 1, s@.len() as int);
                assert(s@.subrange(0, s@.len() as int) =~= s@);
            }
            return None;
        }
        proof {
            let pre = s@.subrange(0, i + 1);
            assert(pre.drop_last() =~= s@.subrange(0, i as int));
            assert(pre.last() == s@[i as int]);
        }
        acc = acc * 16 + d;
        i += 1;
    }
    proof {
        assert(s@.subrange(0, s@.len() as int) =~= s@);
    }
    Some(acc)
}

/// Parse `s` as a decimal numeral. Returns the value exactly when `s`
/// is non-empty, all digits, and fits in a `usize`.
pub fn parse_dec_usize(s: &[u8]) -> (r: Option<usize>)
    ensures
        match r {
            Some(v) => s@.len() >= 1 && all_digits(s@) && dec_val(s@) <= usize::MAX && v
                == dec_val(s@),
            None => s@.len() == 0 || !all_digits(s@) || dec_val(s@) > usize::MAX,
        },
{
    if s.len() == 0 {
        return None;
    }
    let mut acc: usize = 0;
    let mut i: usize = 0;
    while i < s.len()
        invariant
            0 <= i <= s.len(),
            all_digits(s@.subrange(0, i as int)),
            acc == dec_val(s@.subrange(0, i as int)),
        decreases s.len() - i,
    {
        let b = s[i];
        if !(48 <= b && b <= 57) {
            assert(!is_digit(s@[i as int]));
            return None;
        }
        let d = (b - 48) as usize;
        if acc > (usize::MAX - d) / 10 {
            proof {
                let pre = s@.subrange(0, i + 1);
                assert(pre.drop_last() =~= s@.subrange(0, i as int));
                assert(dec_val(pre) == acc * 10 + d);
                lemma_dec_val_prefix_le(s@, i + 1, s@.len() as int);
                assert(s@.subrange(0, s@.len() as int) =~= s@);
            }
            return None;
        }
        proof {
            let pre = s@.subrange(0, i + 1);
            assert(pre.drop_last() =~= s@.subrange(0, i as int));
            assert(pre.last() == s@[i as int]);
        }
        acc = acc * 10 + d;
        i += 1;
    }
    proof {
        assert(s@.subrange(0, s@.len() as int) =~= s@);
    }
    Some(acc)
}

/// Number of digits in the decimal rendering of `n`.
pub open spec fn digits10(n: nat) -> nat
    decreases n,
{
    if n < 10 {
        1
    } else {
        1 + digits10(n / 10)
    }
}

proof fn lemma_digits10_le(n: nat)
    requires
        n >= 1,
    ensures
        digits10(n) <= n,
    decreases n,
{
    if n >= 10 {
        lemma_digits10_le(n / 10);
    }
}

/// Count the decimal digits of `n`.
pub fn count_digits10(n: usize) -> (r: usize)
    ensures
        r == digits10(n as nat),
{
    let mut m = n;
    let mut c: usize = 1;
    while m >= 10
        invariant
            c >= 1,
            m <= n,
            c + digits10(m as nat) == 1 + digits10(n as nat),
        decreases m,
    {
        proof {
            lemma_digits10_le(n as nat);
            assert(digits10(m as nat) == 1 + digits10((m / 10) as nat));
            assert(digits10((m / 10) as nat) >= 1);
        }
        m = m / 10;
        c += 1;
    }
    c
}

} // verus!
