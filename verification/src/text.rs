//! Character-sequence order and basic exec helpers over strings.
//!
//! Headwords are kept in strict ascending order; the order used everywhere
//! is codepoint-wise lexicographic order on the character sequences (for
//! UTF-8 encoded text this coincides with byte-wise lexicographic order).

use vstd::prelude::*;

verus! {

/// Strict lexicographic order on character sequences, by codepoint.
pub open spec fn lex_lt(a: Seq<char>, b: Seq<char>) -> bool
    decreases a.len(),
{
    if b.len() == 0 {
        false
    } else if a.len() == 0 {
        true
    } else if a[0] != b[0] {
        a[0] < b[0]
    } else {
        lex_lt(a.skip(1), b.skip(1))
    }
}

/// The order is irreflexive.
pub proof fn lemma_lex_irrefl(a: Seq<char>)
    ensures
        !lex_lt(a, a),
    decreases a.len(),
{
    if a.len() > 0 {
        lemma_lex_irrefl(a.skip(1));
    }
}

/// Any two character sequences are comparable: below, above, or equal.
pub proof fn lemma_lex_total(a: Seq<char>, b: Seq<char>)
    ensures
        lex_lt(a, b) || lex_lt(b, a) || a == b,
    decreases a.len(),
{
    if a.len() == 0 && b.len() == 0 {
        assert(a =~= b);
    } else if a.len() > 0 && b.len() > 0 && a[0] == b[0] {
        lemma_lex_total(a.skip(1), b.skip(1));
        if a.skip(1) == b.skip(1) {
            assert(a =~= seq![a[0]] + a.skip(1));
            assert(b =~= seq![b[0]] + b.skip(1));
            assert(a == b);
        }
    }
}

/// The order is transitive.
pub proof fn lemma_lex_trans(a: Seq<char>, b: Seq<char>, c: Seq<char>)
    requires
        lex_lt(a, b),
        lex_lt(b, c),
    ensures
        lex_lt(a, c),
    decreases a.len(),
{
    if a.len() > 0 && b.len() > 0 && c.len() > 0 {
        if a[0] == b[0] && b[0] == c[0] {
            lemma_lex_trans(a.skip(1), b.skip(1), c.skip(1));
        }
    }
}

/// Collects the characters of a string slice into a vector.
pub fn chars_of(s: &str) -> (v: Vec<char>)
    ensures
        v@ == s@,
{
    let n = s.unicode_len();
    let mut v: Vec<char> = Vec::new();
    let mut i: usize = 0;
    while i < n
        invariant
            n == s@.len(),
            i <= n,
            v@ == s@.take(i as int),
        decreases n - i,
    {
        let c = s.get_char(i);
        v.push(c);
        proof {
            assert(v@ =~= s@.take(i + 1 as int));
        }
        i = i + 1;
    }
    proof {
        assert(s@.take(n as int) =~= s@);
    }
    v
}

/// Comparing two sequences that agree on their first `i` characters reduces
/// to comparing the parts after position `i`.
proof fn lemma_lex_skip(a: Seq<char>, b: Seq<char>, i: int)
    requires
        0 <= i <= a.len(),
        0 <= i <= b.len(),
        forall|j: int| 0 <= j < i ==> a[j] == b[j],
    ensures
        lex_lt(a, b) == lex_lt(a.skip(i), b.skip(i)),
    decreases i,
{
    if i > 0 {
        assert(a.len() > 0 && b.len() > 0 && a[0] == b[0]);
        assert(forall|j: int| 0 <= j < i - 1 ==> a.skip(1)[j] == b.skip(1)[j]);
        lemma_lex_skip(a.skip(1), b.skip(1), i - 1);
        assert(a.skip(1).skip(i - 1) =~= a.skip(i));
        assert(b.skip(1).skip(i - 1) =~= b.skip(i));
    } else {
        assert(a.skip(0) =~= a);
        assert(b.skip(0) =~= b);
    }
}

/// Decides the lexicographic order on two string slices.
pub fn str_lt(a: &str, b: &str) -> (r: bool)
    ensures
        r == lex_lt(a@, b@),
{
    let an = a.unicode_len();
    let bn = b.unicode_len();
    let mut i: usize = 0;
    loop
        invariant
            an == a@.len(),
            bn == b@.len(),
            i <= an,
            i <= bn,
            forall|j: int| 0 <= j < i ==> a@[j] == b@[j],
        decreases an - i,
    {
        proof {
            lemma_lex_skip(a@, b@, i as int);
        }
        if i >= bn {
            return false;
        }
        if i >= an {
            return true;
        }
        let ca = a.get_char(i);
        let cb = b.get_char(i);
        if ca != cb {
            return ca < cb;
        }
        i = i + 1;
    }
}

/// The pattern occurs in `s` at position `i`.
pub open spec fn match_at(s: Seq<char>, pat: Seq<char>, i: int) -> bool {
    0 <= i && i + pat.len() <= s.len() && s.subrange(i, i + pat.len()) == pat
}

/// The first position at or after `i` where the pattern occurs, if any.
pub open spec fn first_match_from(s: Seq<char>, pat: Seq<char>, i: int) -> Option<int>
    decreases s.len() - i + 1,
{
    if i + pat.len() > s.len() {
        None
    } else if match_at(s, pat, i) {
        Some(i)
    } else {
        first_match_from(s, pat, i + 1)
    }
}

/// A match position is a match position, and none comes before it.
pub proof fn lemma_first_match_from(s: Seq<char>, pat: Seq<char>, i: int)
    requires
        0 <= i,
    ensures
        first_match_from(s, pat, i) matches Some(x) ==> i <= x && match_at(s, pat, x),
        first_match_from(s, pat, i) is None ==> forall|x: int| i <= x ==> !match_at(s, pat, x),
    decreases s.len() - i + 1,
{
    if i + pat.len() > s.len() {
        assert forall|x: int| i <= x implies !match_at(s, pat, x) by {}
    } else if match_at(s, pat, i) {
    } else {
        lemma_first_match_from(s, pat, i + 1);
    }
}

/// Searching a suffix is searching the whole with the positions shifted.
pub proof fn lemma_fmf_skip(s: Seq<char>, pat: Seq<char>, k: int, i: int)
    requires
        0 <= k <= s.len(),
        k <= i,
    ensures
        first_match_from(s, pat, i) matches Some(x) ==> first_match_from(s.skip(k), pat, i - k)
            == Some(x - k),
        first_match_from(s, pat, i) is None ==> first_match_from(s.skip(k), pat, i - k) is None,
    decreases s.len() - i + 1,
{
    assert(match_at(s, pat, i) == match_at(s.skip(k), pat, i - k)) by {
        if i + pat.len() <= s.len() {
            assert(s.subrange(i, i + pat.len()) =~= s.skip(k).subrange(
                i - k,
                i - k + pat.len(),
            ));
        }
    }
    if i + pat.len() > s.len() {
    } else if match_at(s, pat, i) {
    } else {
        lemma_fmf_skip(s, pat, k, i + 1);
    }
}

/// Copies the characters of `v` between two positions.
pub fn sub_vec(v: &Vec<char>, a: usize, b: usize) -> (r: Vec<char>)
    requires
        a <= b <= v@.len(),
    ensures
        r@ == v@.subrange(a as int, b as int),
{
    let mut r: Vec<char> = Vec::new();
    let mut i: usize = a;
    while i < b
        invariant
            a <= i <= b <= v@.len(),
            r@ == v@.subrange(a as int, i as int),
        decreases b - i,
    {
        r.push(v[i]);
        proof {
            assert(r@ =~= v@.subrange(a as int, i + 1 as int));
        }
        i = i + 1;
    }
    r
}

/// Finds the first occurrence of `pat` in `v` at or after `from`.
pub fn find_from(v: &Vec<char>, pat: &Vec<char>, from: usize) -> (r: Option<usize>)
    requires
        from <= v@.len(),
    ensures
        r matches Some(x) ==> first_match_from(v@, pat@, from as int) == Some(x as int)
            && from <= x && x + pat@.len() <= v@.len(),
        r is None ==> first_match_from(v@, pat@, from as int) is None,
{
    let n = v.len();
    let m = pat.len();
    let mut i: usize = from;
    loop
        invariant
            n == v@.len(),
            m == pat@.len(),
            from <= i <= n,
            first_match_from(v@, pat@, from as int) == first_match_from(v@, pat@, i as int),
        decreases n - i,
    {
        if m > n - i {
            return None;
        }
        let mut k: usize = 0;
        let mut eq = true;
        while k < m
            invariant
                n == v@.len(),
                m == pat@.len(),
                i + m <= n,
                k <= m,
                eq ==> forall|t: int| 0 <= t < k ==> v@[i + t] == pat@[t],
                !eq ==> !match_at(v@, pat@, i as int),
            decreases m - k,
        {
            if v[i + k] != pat[k] {
                proof {
                    if match_at(v@, pat@, i as int) {
                        assert(v@.subrange(i as int, i + m)[k as int] == pat@[k as int]);
                    }
                }
                eq = false;
                k = m;
            } else {
                k = k + 1;
            }
        }
        if eq {
            proof {
                assert(v@.subrange(i as int, i + m) =~= pat@);
            }
            return Some(i);
        }
        if i == n {
            proof {
                assert(first_match_from(v@, pat@, i as int) == first_match_from(
                    v@,
                    pat@,
                    i + 1,
                ));
            }
            return None;
        }
        i = i + 1;
    }
}

/// Removes leading and trailing spaces.
pub open spec fn trim_spaces(s: Seq<char>) -> Seq<char>
    decreases s.len(),
{
    if s.len() == 0 {
        s
    } else if s[0] == ' ' {
        trim_spaces(s.skip(1))
    } else if s.last() == ' ' {
        trim_spaces(s.drop_last())
    } else {
        s
    }
}

/// Trimming is taking the span between the outermost non-space characters.
proof fn lemma_trim_range(s: Seq<char>, i: int, j: int)
    requires
        0 <= i <= j <= s.len(),
        forall|k: int| 0 <= k < i ==> s[k] == ' ',
        forall|k: int| j <= k < s.len() ==> s[k] == ' ',
        i < j ==> s[i] != ' ' && s[j - 1] != ' ',
    ensures
        trim_spaces(s) == s.subrange(i, j),
    decreases s.len(),
{
    if s.len() == 0 {
        assert(s.subrange(i, j) =~= s);
    } else if s[0] == ' ' {
        if i > 0 {
            lemma_trim_range(s.skip(1), i - 1, j - 1);
            assert(s.skip(1).subrange(i - 1, j - 1) =~= s.subrange(i, j));
        } else {
            // i == 0 and s[0] is a space, so the span is empty.
            assert(i == j);
            lemma_trim_range(s.skip(1), 0, 0);
            assert(s.skip(1).subrange(0, 0) =~= s.subrange(i, j));
        }
    } else {
        assert(i == 0);
        if s.last() == ' ' {
            assert(j < s.len());
            lemma_trim_range(s.drop_last(), i, j);
            assert(s.drop_last().subrange(i, j) =~= s.subrange(i, j));
        } else {
            assert(j == s.len());
            assert(s.subrange(i, j) =~= s);
        }
    }
}

/// Copies `v` with leading and trailing spaces removed.
pub fn trim_vec(v: &Vec<char>) -> (r: Vec<char>)
    ensures
        r@ == trim_spaces(v@),
{
    let n = v.len();
    let mut i: usize = 0;
    while i < n && v[i] == ' '
        invariant
            n == v@.len(),
            i <= n,
            forall|k: int| 0 <= k < i ==> v@[k] == ' ',
        decreases n - i,
    {
        i = i + 1;
    }
    let mut j: usize = n;
    while j > i && v[j - 1] == ' '
        invariant
            n == v@.len(),
            i <= j <= n,
            forall|k: int| 0 <= k < i ==> v@[k] == ' ',
            forall|k: int| j <= k < n ==> v@[k] == ' ',
        decreases j,
    {
        j = j - 1;
    }
    proof {
        lemma_trim_range(v@, i as int, j as int);
    }
    sub_vec(v, i, j)
}

/// Splits on a separator character: the segments between its occurrences,
/// in order; always at least one segment.
pub open spec fn split_by(s: Seq<char>, c: char) -> Seq<Seq<char>>
    decreases s.len() via split_by_decreases
{
    match first_match_from(s, seq![c], 0) {
        Option::None => seq![s],
        Option::Some(x) => seq![s.take(x)] + split_by(s.skip(x + 1), c),
    }
}

#[via_fn]
proof fn split_by_decreases(s: Seq<char>, c: char) {
    lemma_first_match_from(s, seq![c], 0);
}

/// Splits a character vector on a separator character.
pub fn split_vec(v: &Vec<char>, c: char) -> (r: Vec<Vec<char>>)
    ensures
        r.deep_view() == split_by(v@, c),
{
    let pat_v: Vec<char> = vec![c];
    let n = v.len();
    let mut r: Vec<Vec<char>> = Vec::new();
    let mut pos: usize = 0;
    proof {
        assert(v@.skip(0) =~= v@);
        assert(r.deep_view() + split_by(v@, c) =~= split_by(v@, c));
    }
    loop
        invariant
            pat_v@ == seq![c],
            n == v@.len(),
            pos <= n,
            split_by(v@, c) == r.deep_view() + split_by(v@.skip(pos as int), c),
        decreases n - pos,
    {
        let found = find_from(v, &pat_v, pos);
        proof {
            lemma_fmf_skip(v@, pat_v@, pos as int, pos as int);
        }
        match found {
            Option::None => {
                let seg = sub_vec(v, pos, n);
                proof {
                    assert(seg@ =~= v@.skip(pos as int));
                }
                r.push(seg);
                proof {
                    assert(split_by(v@.skip(pos as int), c) =~= seq![v@.skip(pos as int)]);
                    assert(r.deep_view() =~~= split_by(v@, c));
                }
                return r;
            },
            Option::Some(x) => {
                let seg = sub_vec(v, pos, x);
                let ghost old_rd = r.deep_view();
                r.push(seg);
                proof {
                    let rest = v@.skip(pos as int);
                    assert(first_match_from(rest, seq![c], 0) == Some(x - pos));
                    assert(rest.take(x - pos) =~= v@.subrange(pos as int, x as int));
                    assert(rest.skip(x - pos + 1) =~= v@.skip(x + 1 as int));
                    assert(split_by(rest, c) == seq![rest.take(x - pos)] + split_by(
                        v@.skip(x + 1 as int),
                        c,
                    ));
                    assert(r.deep_view() =~~= old_rd + seq![seg@]);
                    assert(r.deep_view() + split_by(v@.skip(x + 1 as int), c) =~~= split_by(
                        v@,
                        c,
                    ));
                }
                pos = x + 1;
            },
        }
    }
}

/// Decides character-for-character equality of two string slices.
pub fn str_eq(a: &str, b: &str) -> (r: bool)
    ensures
        r == (a@ == b@),
{
    let an = a.unicode_len();
    let bn = b.unicode_len();
    if an != bn {
        return false;
    }
    let mut i: usize = 0;
    while i < an
        invariant
            an == a@.len(),
            an == b@.len(),
            i <= an,
            forall|j: int| 0 <= j < i ==> a@[j] == b@[j],
        decreases an - i,
    {
        if a.get_char(i) != b.get_char(i) {
            return false;
        }
        i = i + 1;
    }
    proof {
        assert(a@ =~= b@);
    }
    true
}

/// Builds a string from a vector of characters.
/// Relies on `String`'s `FromIterator<char>`: collecting an iterator of
/// characters yields the string of exactly those characters in order.
#[verifier::external_body]
pub(crate) fn string_from_chars(v: &Vec<char>) -> (r: String)
    ensures
        r@ == v@,
{
    v.iter().collect()
}

} // verus!
