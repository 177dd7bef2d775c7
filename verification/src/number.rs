//! The texts that stand for a number.
//!
//! A coordinate is written as decimal text, the way Rust reads a float from a
//! string: an optional sign, then either digits with at most one point and an
//! optional exponent, or one of the words `inf`, `infinity` and `nan`, in
//! either case of letters.

use vstd::prelude::*;

verus! {

/// A decimal digit.
pub open spec fn is_digit(c: char) -> bool {
    '0' <= c && c <= '9'
}

/// A plus or minus sign.
pub open spec fn is_sign(c: char) -> bool {
    c == '+' || c == '-'
}

/// The letter that marks an exponent.
pub open spec fn is_exponent_mark(c: char) -> bool {
    c == 'e' || c == 'E'
}

/// `c` is the lower-case letter `lower`, or its upper-case form.
pub open spec fn is_letter(c: char, lower: char) -> bool {
    c == lower || c as u32 + 32 == lower as u32
}

/// Every character of `s` from `lo` up to `hi` is a digit.
pub open spec fn digits_between(s: Seq<char>, lo: int, hi: int) -> bool {
    forall|k: int| lo <= k < hi ==> is_digit(#[trigger] s[k])
}

/// The part of `s` from `lo` up to `hi` is digits with at most one point among
/// them, and at least one digit.
pub open spec fn is_decimal(s: Seq<char>, lo: int, hi: int) -> bool {
    ||| lo < hi && digits_between(s, lo, hi)
    ||| lo + 1 < hi && exists|d: int|
        lo <= d < hi && #[trigger] s[d] == '.' && digits_between(s, lo, d) && digits_between(
            s,
            d + 1,
            hi,
        )
}

/// The part of `s` from `lo` to its end is an exponent: the mark, an optional
/// sign, and at least one digit.
pub open spec fn is_exponent(s: Seq<char>, lo: int) -> bool {
    &&& lo < s.len()
    &&& is_exponent_mark(s[lo])
    &&& {
        let from = if lo + 1 < s.len() && is_sign(s[lo + 1]) {
            lo + 2
        } else {
            lo + 1
        };
        from < s.len() && digits_between(s, from, s.len() as int)
    }
}

/// The part of `s` from `lo` to its end is a decimal, with or without an
/// exponent behind it.
pub open spec fn is_number(s: Seq<char>, lo: int) -> bool {
    exists|e: int|
        lo <= e <= s.len() && #[trigger] is_decimal(s, lo, e) && (e == s.len() || is_exponent(s, e))
}

/// The part of `s` from `lo` to its end spells `word`, in either case of
/// letters.
pub open spec fn spells(s: Seq<char>, lo: int, word: Seq<char>) -> bool {
    &&& s.len() - lo == word.len()
    &&& forall|k: int| 0 <= k < word.len() ==> is_letter(s[lo + k], #[trigger] word[k])
}

/// The part of `s` from `lo` to its end is one of the words for a value that
/// has no digits: infinity, or not a number.
pub open spec fn is_special(s: Seq<char>, lo: int) -> bool {
    ||| spells(s, lo, seq!['i', 'n', 'f'])
    ||| spells(s, lo, seq!['i', 'n', 'f', 'i', 'n', 'i', 't', 'y'])
    ||| spells(s, lo, seq!['n', 'a', 'n'])
}

/// `s` stands for a number.
pub open spec fn is_numeric(s: Seq<char>) -> bool {
    let lo: int = if s.len() > 0 && is_sign(s[0]) {
        1
    } else {
        0
    };
    is_special(s, lo) || is_number(s, lo)
}

/// Tells whether `c` is a decimal digit.
fn digit(c: char) -> (r: bool)
    ensures
        r == is_digit(c),
{
    '0' <= c && c <= '9'
}

/// Tells whether `c` is the lower-case letter `lower`, or its upper-case form.
fn same_letter(c: char, lower: char) -> (r: bool)
    ensures
        r == is_letter(c, lower),
{
    c == lower || c as u32 + 32 == lower as u32
}

/// The end of the run of digits that starts at `from`.
fn skip_digits(s: &[char], from: usize) -> (r: usize)
    requires
        from <= s@.len(),
    ensures
        from <= r <= s@.len(),
        digits_between(s@, from as int, r as int),
        r < s@.len() ==> !is_digit(s@[r as int]),
{
    let n: usize = s.len();
    let mut i: usize = from;
    while i < n && digit(s[i])
        invariant
            n == s@.len(),
            from <= i <= n,
            digits_between(s@, from as int, i as int),
        decreases n - i,
    {
        i += 1;
    }
    i
}

/// Tells whether the part of `s` from `lo` to its end spells `word`, in either
/// case of letters.
fn spells_word(s: &[char], lo: usize, word: &[char]) -> (r: bool)
    requires
        lo <= s@.len(),
    ensures
        r == spells(s@, lo as int, word@),
{
    let n: usize = s.len();
    let m: usize = word.len();
    if n - lo != m {
        return false;
    }
    let mut k: usize = 0;
    while k < m
        invariant
            n == s@.len(),
            m == word@.len(),
            n - lo == m,
            k <= m,
            forall|q: int| 0 <= q < k ==> is_letter(s@[lo + q], #[trigger] word@[q]),
        decreases m - k,
    {
        if !same_letter(s[lo + k], word[k]) {
            return false;
        }
        k += 1;
    }
    true
}

/// Tells whether the part of `s` from `lo` to its end is an exponent.
fn exponent_at(s: &[char], lo: usize) -> (r: bool)
    requires
        lo < s@.len(),
    ensures
        r == is_exponent(s@, lo as int),
{
    let n: usize = s.len();
    if s[lo] != 'e' && s[lo] != 'E' {
        return false;
    }
    let from: usize = if lo + 1 < n && (s[lo + 1] == '+' || s[lo + 1] == '-') {
        lo + 2
    } else {
        lo + 1
    };
    if from >= n {
        return false;
    }
    let end: usize = skip_digits(s, from);
    end == n
}

/// Tells whether `s` stands for a number.
pub fn is_numeric_text(s: &[char]) -> (r: bool)
    ensures
        r == is_numeric(s@),
{
    let n: usize = s.len();
    let lo: usize = if n > 0 && (s[0] == '+' || s[0] == '-') {
        1
    } else {
        0
    };
    let inf = ['i', 'n', 'f'];
    let infinity = ['i', 'n', 'f', 'i', 'n', 'i', 't', 'y'];
    let nan = ['n', 'a', 'n'];
    assert(inf@ =~= seq!['i', 'n', 'f']);
    assert(infinity@ =~= seq!['i', 'n', 'f', 'i', 'n', 'i', 't', 'y']);
    assert(nan@ =~= seq!['n', 'a', 'n']);
    if spells_word(s, lo, inf.as_slice()) || spells_word(s, lo, infinity.as_slice()) || spells_word(
        s,
        lo,
        nan.as_slice(),
    ) {
        return true;
    }
    assert(!is_special(s@, lo as int));
    let whole: usize = skip_digits(s, lo);
    let end: usize = if whole < n && s[whole] == '.' {
        skip_digits(s, whole + 1)
    } else {
        whole
    };
    let ghost pointed = whole < n && s@[whole as int] == '.';
    let digits: usize = if end > whole {
        end - lo - 1
    } else {
        end - lo
    };
    if digits == 0 {
        proof {
            assert forall|e: int| lo <= e <= n implies !is_decimal(s@, lo as int, e) by {
                if is_decimal(s@, lo as int, e) {
                    assert(is_digit(s@[lo as int]) || (s@[lo as int] == '.' && is_digit(
                        s@[lo + 1],
                    )));
                }
            }
        }
        return false;
    }
    assert(is_decimal(s@, lo as int, end as int)) by {
        if pointed {
            assert(s@[whole as int] == '.');
        }
    }
    // A decimal that reaches the end of the text or an exponent mark ends at `end`.
    assert forall|e: int|
        lo <= e <= n && #[trigger] is_decimal(s@, lo as int, e) && (e == n || is_exponent_mark(
            s@[e],
        )) implies e == end by {
        lemma_decimal_end(s@, lo as int, whole as int, end as int, e);
    }
    if end == n {
        return true;
    }
    exponent_at(s, end)
}

/// Where a decimal that starts at `lo` can end: `whole` ends the digits before
/// the point, `end` the digits after it (or `end` is `whole`, where no point
/// follows). A decimal that reaches the end of the text, or has an exponent mark
/// behind it, ends at `end`.
proof fn lemma_decimal_end(s: Seq<char>, lo: int, whole: int, end: int, e: int)
    requires
        0 <= lo <= whole <= end <= s.len(),
        digits_between(s, lo, whole),
        whole < s.len() ==> !is_digit(s[whole]),
        whole < s.len() && s[whole] == '.' ==> whole < end && digits_between(s, whole + 1, end),
        !(whole < s.len() && s[whole] == '.') ==> end == whole,
        end < s.len() ==> !is_digit(s[end]),
        lo <= e <= s.len(),
        is_decimal(s, lo, e),
        e == s.len() || is_exponent_mark(s[e]),
    ensures
        e == end,
{
    if e < end {
        // An exponent mark would stand among the digits or on the point.
        assert(is_exponent_mark(s[e]));
        if e < whole {
            assert(is_digit(s[e]));
        } else if e > whole {
            assert(is_digit(s[e]));
        }
    } else if e > end {
        // The decimal would hold what is neither a digit nor its one point.
        if lo < e && digits_between(s, lo, e) {
            assert(is_digit(s[whole]));
        } else {
            let d = choose|d: int|
                lo <= d < e && #[trigger] s[d] == '.' && digits_between(s, lo, d) && digits_between(
                    s,
                    d + 1,
                    e,
                );
            if d < whole {
                assert(is_digit(s[d]));
            } else if d == whole {
                assert(is_digit(s[end]));
            } else {
                assert(is_digit(s[whole]));
            }
        }
    }
}

/// A letter of the Latin alphabet, in either case.
pub open spec fn is_latin_letter(c: char) -> bool {
    ('a' <= c && c <= 'z') || ('A' <= c && c <= 'Z')
}

/// Either case of a lower-case letter is a letter.
proof fn lemma_letter_is_latin(c: char, lower: char)
    requires
        is_letter(c, lower),
        'a' <= lower && lower <= 'z',
    ensures
        is_latin_letter(c),
{
}

/// A numeric text is made of signs, digits, points and letters.
pub proof fn lemma_numeric_characters(s: Seq<char>, i: int)
    requires
        is_numeric(s),
        0 <= i < s.len(),
    ensures
        is_sign(s[i]) || is_digit(s[i]) || s[i] == '.' || is_latin_letter(s[i]),
{
    let lo: int = if s.len() > 0 && is_sign(s[0]) {
        1
    } else {
        0
    };
    if i >= lo {
        let k = i - lo;
        let inf = seq!['i', 'n', 'f'];
        let infinity = seq!['i', 'n', 'f', 'i', 'n', 'i', 't', 'y'];
        let nan = seq!['n', 'a', 'n'];
        if spells(s, lo, inf) {
            assert(is_letter(s[lo + k], inf[k]));
            lemma_letter_is_latin(s[i], inf[k]);
        } else if spells(s, lo, infinity) {
            assert(is_letter(s[lo + k], infinity[k]));
            lemma_letter_is_latin(s[i], infinity[k]);
        } else if spells(s, lo, nan) {
            assert(is_letter(s[lo + k], nan[k]));
            lemma_letter_is_latin(s[i], nan[k]);
        } else {
            let e = choose|e: int|
                lo <= e <= s.len() && #[trigger] is_decimal(s, lo, e) && (e == s.len()
                    || is_exponent(s, e));
            if i < e {
                if !digits_between(s, lo, e) {
                    let d = choose|d: int|
                        lo <= d < e && #[trigger] s[d] == '.' && digits_between(s, lo, d)
                            && digits_between(s, d + 1, e);
                    if i != d {
                        assert(is_digit(s[i]));
                    }
                } else {
                    assert(is_digit(s[i]));
                }
            } else if i > e + 1 || (i == e + 1 && !is_sign(s[i])) {
                assert(is_digit(s[i]));
            }
        }
    }
}

} // verus!
