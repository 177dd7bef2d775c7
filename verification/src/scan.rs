//! Searching a text for a literal pattern, cutting it at each occurrence, and
//! trimming white space from its ends.

use vstd::prelude::*;
use vstd::slice::slice_subrange;

verus! {

/// `pat` stands in `s` at index `i`.
pub open spec fn occurs_at(s: Seq<char>, pat: Seq<char>, i: int) -> bool {
    &&& 0 <= i
    &&& i + pat.len() <= s.len()
    &&& forall|k: int| 0 <= k < pat.len() ==> s[i + k] == #[trigger] pat[k]
}

/// `pat` stands in `s` at index `i` and nowhere before it.
pub open spec fn is_first_occurrence(s: Seq<char>, pat: Seq<char>, i: int) -> bool {
    &&& occurs_at(s, pat, i)
    &&& forall|j: int| 0 <= j < i ==> !occurs_at(s, pat, j)
}

/// The index of the leftmost occurrence of `pat` in `s`, if there is one.
pub open spec fn first_occurrence(s: Seq<char>, pat: Seq<char>) -> Option<int> {
    if exists|i: int| is_first_occurrence(s, pat, i) {
        Some(choose|i: int| is_first_occurrence(s, pat, i))
    } else {
        None
    }
}

/// The pieces that remain of `s` when every occurrence of `pat` is cut out,
/// going from the left and never letting two occurrences overlap. A text
/// with `n` such occurrences has `n + 1` pieces, some of which may be empty.
/// There is nothing to cut at with an empty pattern: the text stays whole.
pub open spec fn pieces(s: Seq<char>, pat: Seq<char>) -> Seq<Seq<char>>
    decreases s.len(),
    via pieces_decreases
{
    if pat.len() == 0 {
        seq![s]
    } else {
        match first_occurrence(s, pat) {
            Some(i) => seq![s.subrange(0, i)] + pieces(
                s.subrange(i + pat.len(), s.len() as int),
                pat,
            ),
            None => seq![s],
        }
    }
}

#[via_fn]
proof fn pieces_decreases(s: Seq<char>, pat: Seq<char>) {
}

/// A delimiter that cannot overlap itself: one character, or two that
/// differ.
pub open spec fn is_delimiter(pat: Seq<char>) -> bool {
    pat.len() == 1 || (pat.len() == 2 && pat[0] != pat[1])
}

/// The texts that a list of slices holds.
pub open spec fn texts(v: Seq<&[char]>) -> Seq<Seq<char>> {
    v.map_values(|p: &[char]| p@)
}

/// White space, as Unicode defines it: the code points that it marks
/// `White_Space`.
pub open spec fn is_whitespace(c: char) -> bool {
    let n = c as u32;
    ||| 0x09 <= n <= 0x0D
    ||| n == 0x20
    ||| n == 0x85
    ||| n == 0xA0
    ||| n == 0x1680
    ||| 0x2000 <= n <= 0x200A
    ||| n == 0x2028
    ||| n == 0x2029
    ||| n == 0x202F
    ||| n == 0x205F
    ||| n == 0x3000
}

/// `s` without the white space it begins with.
pub open spec fn trimmed_start(s: Seq<char>) -> Seq<char>
    decreases s.len(),
{
    if s.len() > 0 && is_whitespace(s.first()) {
        trimmed_start(s.drop_first())
    } else {
        s
    }
}

/// `s` without the white space it ends with.
pub open spec fn trimmed_end(s: Seq<char>) -> Seq<char>
    decreases s.len(),
{
    if s.len() > 0 && is_whitespace(s.last()) {
        trimmed_end(s.drop_last())
    } else {
        s
    }
}

/// `s` without the white space at either end.
pub open spec fn trimmed(s: Seq<char>) -> Seq<char> {
    trimmed_end(trimmed_start(s))
}

/// Tells whether `pat` stands in `s` at index `i`.
pub fn matches_at(s: &[char], pat: &[char], i: usize) -> (r: bool)
    ensures
        r == occurs_at(s@, pat@, i as int),
{
    let n: usize = s.len();
    let m: usize = pat.len();
    if m > n || i > n - m {
        return false;
    }
    let mut k: usize = 0;
    while k < m
        invariant
            n == s@.len(),
            m == pat@.len(),
            k <= m,
            i + m <= n,
            forall|q: int| 0 <= q < k ==> s@[i + q] == #[trigger] pat@[q],
        decreases m - k,
    {
        if s[i + k] != pat[k] {
            return false;
        }
        k += 1;
    }
    true
}

/// Finds the leftmost occurrence of `pat` in `s` at or after index `from`.
pub fn find(s: &[char], pat: &[char], from: usize) -> (r: Option<usize>)
    ensures
        match r {
            Some(i) => {
                &&& from <= i
                &&& occurs_at(s@, pat@, i as int)
                &&& forall|j: int| from <= j < i ==> !occurs_at(s@, pat@, j)
            },
            None => forall|j: int| from <= j ==> !occurs_at(s@, pat@, j),
        },
{
    let n: usize = s.len();
    let m: usize = pat.len();
    if m > n {
        return None;
    }
    let last: usize = n - m;
    let mut i: usize = from;
    while i <= last
        invariant
            n == s@.len(),
            m == pat@.len(),
            last == n - m,
            from <= i,
            forall|j: int| from <= j < i ==> !occurs_at(s@, pat@, j),
        decreases n + 1 - i,
    {
        if matches_at(s, pat, i) {
            return Some(i);
        }
        i += 1;
    }
    None
}

/// Cuts `s` at every occurrence of `pat`, from the left, and returns the
/// pieces in order.
pub fn split<'a>(s: &'a [char], pat: &[char]) -> (r: Vec<&'a [char]>)
    ensures
        texts(r@) == pieces(s@, pat@),
{
    let n: usize = s.len();
    let m: usize = pat.len();
    let mut out: Vec<&'a [char]> = Vec::new();
    if m == 0 {
        out.push(s);
        assert(texts(out@) =~= seq![s@]);
        return out;
    }
    let mut start: usize = 0;
    assert(s@.subrange(0, n as int) =~= s@);
    assert(texts(out@) =~= Seq::<Seq<char>>::empty());
    loop
        invariant_except_break
            n == s@.len(),
            m == pat@.len(),
            m > 0,
            start <= n,
            texts(out@) + pieces(s@.subrange(start as int, n as int), pat@) == pieces(s@, pat@),
        ensures
            texts(out@) == pieces(s@, pat@),
        decreases n - start,
    {
        let ghost rest = s@.subrange(start as int, n as int);
        let ghost before = texts(out@);
        match find(s, pat, start) {
            Some(i) => {
                proof {
                    assert forall|j: int| 0 <= j < i - start implies !occurs_at(rest, pat@, j) by {
                        lemma_occurs_in_suffix(s@, pat@, start as int, j);
                    }
                    lemma_occurs_in_suffix(s@, pat@, start as int, i - start);
                    lemma_first_occurrence_is(rest, pat@, i - start);
                    assert(rest.subrange(0, i - start) =~= s@.subrange(start as int, i as int));
                    assert(rest.subrange(i - start + m, rest.len() as int) =~= s@.subrange(
                        i + m,
                        n as int,
                    ));
                }
                out.push(slice_subrange(s, start, i));
                proof {
                    assert(texts(out@) =~= before + seq![s@.subrange(start as int, i as int)]);
                }
                start = i + m;
            },
            None => {
                proof {
                    assert forall|j: int| !occurs_at(rest, pat@, j) by {
                        if 0 <= j {
                            lemma_occurs_in_suffix(s@, pat@, start as int, j);
                        }
                    }
                    lemma_first_occurrence_none(rest, pat@);
                }
                out.push(slice_subrange(s, start, n));
                proof {
                    assert(texts(out@) =~= before + seq![rest]);
                }
                break ;
            },
        }
    }
    out
}

/// Tells whether `c` is white space.
pub fn is_space(c: char) -> (r: bool)
    ensures
        r == is_whitespace(c),
{
    let n: u32 = c as u32;
    (0x09 <= n && n <= 0x0D) || n == 0x20 || n == 0x85 || n == 0xA0 || n == 0x1680 || (0x2000 <= n
        && n <= 0x200A) || n == 0x2028 || n == 0x2029 || n == 0x202F || n == 0x205F || n == 0x3000
}

/// Returns `s` without the white space at either end.
pub fn trim<'a>(s: &'a [char]) -> (r: &'a [char])
    ensures
        r@ == trimmed(s@),
{
    let n: usize = s.len();
    let mut a: usize = 0;
    assert(s@.subrange(0, n as int) =~= s@);
    while a < n && is_space(s[a])
        invariant
            n == s@.len(),
            a <= n,
            trimmed_start(s@) == trimmed_start(s@.subrange(a as int, n as int)),
        decreases n - a,
    {
        assert(s@.subrange(a as int, n as int).drop_first() =~= s@.subrange(a + 1, n as int));
        a += 1;
    }
    let mut b: usize = n;
    while b > a && is_space(s[b - 1])
        invariant
            n == s@.len(),
            a <= b <= n,
            trimmed(s@) == trimmed_end(s@.subrange(a as int, b as int)),
        decreases b - a,
    {
        assert(s@.subrange(a as int, b as int).drop_last() =~= s@.subrange(a as int, b - 1));
        b -= 1;
    }
    slice_subrange(s, a, b)
}

/// The leftmost occurrence is unique: whoever finds one has found it.
pub proof fn lemma_first_occurrence_is(s: Seq<char>, pat: Seq<char>, i: int)
    requires
        is_first_occurrence(s, pat, i),
    ensures
        first_occurrence(s, pat) == Some(i),
{
    let j = choose|j: int| is_first_occurrence(s, pat, j);
    assert(is_first_occurrence(s, pat, j));
    if j < i {
        assert(!occurs_at(s, pat, j));
    } else if i < j {
        assert(!occurs_at(s, pat, i));
    }
}

/// A text in which the pattern does not occur has no leftmost occurrence.
pub proof fn lemma_first_occurrence_none(s: Seq<char>, pat: Seq<char>)
    requires
        forall|j: int| !occurs_at(s, pat, j),
    ensures
        first_occurrence(s, pat) is None,
{
}

/// Where the pattern occurs at all, it has a leftmost occurrence, at or
/// before any other.
pub proof fn lemma_least_occurrence(s: Seq<char>, pat: Seq<char>, j: int)
    requires
        occurs_at(s, pat, j),
    ensures
        first_occurrence(s, pat) is Some,
        first_occurrence(s, pat)->0 <= j,
        is_first_occurrence(s, pat, first_occurrence(s, pat)->0),
    decreases j,
{
    if exists|i: int| 0 <= i < j && occurs_at(s, pat, i) {
        let i = choose|i: int| 0 <= i < j && occurs_at(s, pat, i);
        lemma_least_occurrence(s, pat, i);
    } else {
        lemma_first_occurrence_is(s, pat, j);
    }
}

/// An occurrence in a suffix of `s` is an occurrence in `s`, moved by the
/// length of what was left out.
pub proof fn lemma_occurs_in_suffix(s: Seq<char>, pat: Seq<char>, from: int, j: int)
    requires
        0 <= from <= s.len(),
        0 <= j,
    ensures
        occurs_at(s.subrange(from, s.len() as int), pat, j) == occurs_at(s, pat, from + j),
{
    let t = s.subrange(from, s.len() as int);
    if occurs_at(t, pat, j) {
        assert forall|k: int| 0 <= k < pat.len() implies s[from + j + k] == #[trigger] pat[k] by {
            assert(t[j + k] == pat[k]);
        }
    }
    if occurs_at(s, pat, from + j) {
        assert forall|k: int| 0 <= k < pat.len() implies t[j + k] == #[trigger] pat[k] by {
            assert(s[from + j + k] == pat[k]);
        }
    }
}

/// Behind a text that lacks the pattern's first character, the pattern
/// occurs where it occurs in what follows.
pub proof fn lemma_occurs_behind(a: Seq<char>, rest: Seq<char>, pat: Seq<char>, j: int)
    requires
        0 <= j,
    ensures
        occurs_at(a + rest, pat, a.len() + j) == occurs_at(rest, pat, j),
{
    assert((a + rest).subrange(a.len() as int, (a + rest).len() as int) =~= rest);
    lemma_occurs_in_suffix(a + rest, pat, a.len() as int, j);
}

/// No occurrence begins inside a text that lacks the pattern's first
/// character, whatever follows the text.
pub proof fn lemma_no_occurrence_inside(a: Seq<char>, rest: Seq<char>, pat: Seq<char>, j: int)
    requires
        pat.len() > 0,
        !a.contains(pat[0]),
        0 <= j < a.len(),
    ensures
        !occurs_at(a + rest, pat, j),
{
    if occurs_at(a + rest, pat, j) {
        assert((a + rest)[j + 0] == pat[0]);
        assert(a[j] == pat[0]);
    }
}

/// A text has at least one piece, whatever it is cut at.
pub proof fn lemma_pieces_nonempty(s: Seq<char>, pat: Seq<char>)
    ensures
        pieces(s, pat).len() >= 1,
{
}

/// A text in which the pattern does not occur is its own single piece.
pub proof fn lemma_pieces_whole(s: Seq<char>, pat: Seq<char>)
    requires
        forall|j: int| !occurs_at(s, pat, j),
    ensures
        pieces(s, pat) == seq![s],
{
}

/// The pieces of a text whose leftmost occurrence is known: what stands
/// before it, then the pieces of what stands behind it.
pub proof fn lemma_pieces_cut(s: Seq<char>, pat: Seq<char>, i: int)
    requires
        pat.len() > 0,
        is_first_occurrence(s, pat, i),
    ensures
        pieces(s, pat) == seq![s.subrange(0, i)] + pieces(
            s.subrange(i + pat.len(), s.len() as int),
            pat,
        ),
{
    lemma_first_occurrence_is(s, pat, i);
}

/// A text that lacks the pattern's first character, then the pattern: the
/// text is the first piece, and the pieces of the rest follow.
pub proof fn lemma_pieces_after_free(a: Seq<char>, rest: Seq<char>, pat: Seq<char>)
    requires
        pat.len() > 0,
        !a.contains(pat[0]),
    ensures
        pieces(a + pat + rest, pat) == seq![a] + pieces(rest, pat),
{
    let s = a + pat + rest;
    let n = a.len() as int;
    assert(s =~= a + (pat + rest));
    assert forall|j: int| 0 <= j < n implies !occurs_at(s, pat, j) by {
        lemma_no_occurrence_inside(a, pat + rest, pat, j);
    }
    assert(occurs_at(s, pat, n)) by {
        assert forall|k: int| 0 <= k < pat.len() implies s[n + k] == #[trigger] pat[k] by {}
    }
    lemma_pieces_cut(s, pat, n);
    assert(s.subrange(0, n) =~= a);
    assert(s.subrange(n + pat.len(), s.len() as int) =~= rest);
}

/// A text that lacks the pattern's first character, put before another:
/// it lengthens the first piece and changes nothing else.
pub proof fn lemma_first_piece(a: Seq<char>, rest: Seq<char>, pat: Seq<char>)
    requires
        pat.len() > 0,
        !a.contains(pat[0]),
    ensures
        pieces(a + rest, pat).len() == pieces(rest, pat).len(),
        pieces(a + rest, pat)[0] == a + pieces(rest, pat)[0],
{
    let s = a + rest;
    let n = a.len() as int;
    assert forall|j: int| 0 <= j < n implies !occurs_at(s, pat, j) by {
        lemma_no_occurrence_inside(a, rest, pat, j);
    }
    if exists|j: int| occurs_at(rest, pat, j) {
        let j = choose|j: int| occurs_at(rest, pat, j);
        lemma_least_occurrence(rest, pat, j);
        let i = first_occurrence(rest, pat)->0;
        lemma_occurs_behind(a, rest, pat, i);
        assert forall|q: int| 0 <= q < n + i implies !occurs_at(s, pat, q) by {
            if q >= n {
                lemma_occurs_behind(a, rest, pat, q - n);
            }
        }
        lemma_pieces_cut(s, pat, n + i);
        lemma_pieces_cut(rest, pat, i);
        assert(s.subrange(0, n + i) =~= a + rest.subrange(0, i));
        assert(s.subrange(n + i + pat.len(), s.len() as int) =~= rest.subrange(
            i + pat.len(),
            rest.len() as int,
        ));
    } else {
        assert forall|q: int| !occurs_at(s, pat, q) by {
            if q >= n {
                lemma_occurs_behind(a, rest, pat, q - n);
            }
        }
        lemma_pieces_whole(s, pat);
        lemma_pieces_whole(rest, pat);
    }
}

/// Two texts joined by a delimiter: the pieces of the first, then those of
/// the second.
pub proof fn lemma_pieces_add(a: Seq<char>, b: Seq<char>, pat: Seq<char>)
    requires
        is_delimiter(pat),
    ensures
        pieces(a + pat + b, pat) == pieces(a, pat) + pieces(b, pat),
    decreases a.len(),
{
    let s = a + pat + b;
    let n = a.len() as int;
    let m = pat.len() as int;
    if exists|j: int| occurs_at(a, pat, j) {
        let j = choose|j: int| occurs_at(a, pat, j);
        lemma_least_occurrence(a, pat, j);
        let i = first_occurrence(a, pat)->0;
        let left = a.subrange(i + m, n);
        assert(occurs_at(s, pat, i)) by {
            assert forall|k: int| 0 <= k < m implies s[i + k] == #[trigger] pat[k] by {
                assert(a[i + k] == pat[k]);
            }
        }
        assert forall|q: int| 0 <= q < i implies !occurs_at(s, pat, q) by {
            if occurs_at(s, pat, q) {
                assert forall|k: int| 0 <= k < m implies a[q + k] == #[trigger] pat[k] by {
                    assert(s[q + k] == pat[k]);
                }
                assert(occurs_at(a, pat, q));
            }
        }
        lemma_pieces_cut(s, pat, i);
        lemma_pieces_cut(a, pat, i);
        assert(s.subrange(0, i) =~= a.subrange(0, i));
        assert(s.subrange(i + m, s.len() as int) =~= left + pat + b);
        lemma_pieces_add(left, b, pat);
        assert(pieces(s, pat) =~= pieces(a, pat) + pieces(b, pat));
    } else {
        assert(occurs_at(s, pat, n)) by {
            assert forall|k: int| 0 <= k < m implies s[n + k] == #[trigger] pat[k] by {}
        }
        assert forall|q: int| 0 <= q < n implies !occurs_at(s, pat, q) by {
            if occurs_at(s, pat, q) {
                if q + m <= n {
                    assert forall|k: int| 0 <= k < m implies a[q + k] == #[trigger] pat[k] by {
                        assert(s[q + k] == pat[k]);
                    }
                    assert(occurs_at(a, pat, q));
                } else {
                    assert(s[q + 0] == pat[0]);
                    assert(s[q + 1] == pat[1]);
                }
            }
        }
        lemma_pieces_cut(s, pat, n);
        lemma_pieces_whole(a, pat);
        assert(s.subrange(0, n) =~= a);
        assert(s.subrange(n + m, s.len() as int) =~= b);
    }
}

/// Trimming the start stops at the first character that is no white space:
/// what stands from there on is kept.
pub proof fn lemma_trimmed_start_add(a: Seq<char>, b: Seq<char>)
    requires
        b.len() > 0,
        !is_whitespace(b.first()),
    ensures
        trimmed_start(a + b) == trimmed_start(a) + b,
    decreases a.len(),
{
    if a.len() > 0 && is_whitespace(a.first()) {
        assert((a + b).drop_first() =~= a.drop_first() + b);
        lemma_trimmed_start_add(a.drop_first(), b);
    } else if a.len() == 0 {
        assert(a + b =~= b);
        assert(trimmed_start(a) + b =~= b);
    }
}

/// Trimming the end stops at the last character that is no white space:
/// what stands up to there is kept.
pub proof fn lemma_trimmed_end_add(a: Seq<char>, b: Seq<char>)
    requires
        a.len() > 0,
        !is_whitespace(a.last()),
    ensures
        trimmed_end(a + b) == a + trimmed_end(b),
    decreases b.len(),
{
    if b.len() > 0 && is_whitespace(b.last()) {
        assert((a + b).drop_last() =~= a + b.drop_last());
        lemma_trimmed_end_add(a, b.drop_last());
    } else if b.len() == 0 {
        assert(a + b =~= a);
        assert(a + trimmed_end(b) =~= a);
    }
}

/// Trimming the start brings in no character that was not there.
pub proof fn lemma_trimmed_start_keeps_free(s: Seq<char>, c: char)
    requires
        !s.contains(c),
    ensures
        !trimmed_start(s).contains(c),
    decreases s.len(),
{
    if s.len() > 0 && is_whitespace(s.first()) {
        let rest = s.drop_first();
        assert forall|i: int| 0 <= i < rest.len() implies rest[i] != c by {
            assert(s[i + 1] == rest[i]);
            assert(s.contains(s[i + 1]));
        }
        lemma_trimmed_start_keeps_free(rest, c);
    }
}

} // verus!
