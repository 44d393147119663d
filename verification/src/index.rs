//! The lookup index: exact membership and bounded edit-distance search
//! over the dictionary's sorted headword sequence.

use vstd::prelude::*;

use crate::dict::Dictionary;
use crate::text::{chars_of, lemma_lex_irrefl, lemma_lex_total, lemma_lex_trans, lex_lt, str_eq,
    str_lt};

verus! {

/// The least of three naturals.
pub open spec fn min3(x: nat, y: nat, z: nat) -> nat {
    if x <= y && x <= z {
        x
    } else if y <= z {
        y
    } else {
        z
    }
}

/// Levenshtein distance between two character sequences: the least number
/// of single-character insertions, deletions and substitutions (unit cost
/// each) turning one into the other.
pub open spec fn edit_dist(a: Seq<char>, b: Seq<char>) -> nat
    decreases a.len() + b.len(),
{
    if a.len() == 0 {
        b.len()
    } else if b.len() == 0 {
        a.len()
    } else if a.last() == b.last() {
        edit_dist(a.drop_last(), b.drop_last())
    } else {
        (1 + min3(
            edit_dist(a.drop_last(), b),
            edit_dist(a, b.drop_last()),
            edit_dist(a.drop_last(), b.drop_last()),
        )) as nat
    }
}

/// The distance never exceeds the longer length: aligned positions can be
/// substituted and the overhang inserted or deleted.
pub proof fn lemma_ed_le_max(a: Seq<char>, b: Seq<char>)
    ensures
        edit_dist(a, b) <= a.len() || edit_dist(a, b) <= b.len(),
        edit_dist(a, b) <= a.len() + b.len(),
    decreases a.len() + b.len(),
{
    if a.len() == 0 || b.len() == 0 {
    } else if a.last() == b.last() {
        lemma_ed_le_max(a.drop_last(), b.drop_last());
    } else {
        lemma_ed_le_max(a.drop_last(), b.drop_last());
        lemma_ed_le_max(a.drop_last(), b);
        lemma_ed_le_max(a, b.drop_last());
    }
}

/// The distance is zero exactly on equal sequences.
pub proof fn lemma_ed_zero_iff_eq(a: Seq<char>, b: Seq<char>)
    ensures
        (edit_dist(a, b) == 0) <==> (a == b),
    decreases a.len() + b.len(),
{
    if a.len() == 0 && b.len() == 0 {
        assert(a =~= b);
    } else if a.len() == 0 || b.len() == 0 {
    } else if a.last() == b.last() {
        lemma_ed_zero_iff_eq(a.drop_last(), b.drop_last());
        if a.drop_last() == b.drop_last() {
            assert(a =~= a.drop_last().push(a.last()));
            assert(b =~= b.drop_last().push(b.last()));
        }
        if a == b {
            assert(a.drop_last() == b.drop_last());
        }
    } else {
        assert(edit_dist(a, b) > 0);
        assert(a != b) by {
            if a == b {
                assert(a.last() == b.last());
            }
        }
    }
}

/// Exact-consistency law: over a dictionary's keys, a key lies within
/// distance zero of a word exactly when it is that word, and distinct
/// positions never hold the same word. Together with the search contract
/// this pins the distance-zero search to exact membership: searching for
/// a stored headword at distance zero yields that headword's position and
/// nothing else.
pub proof fn lemma_exact_consistency(dv: crate::dict::DictionaryView, w: Seq<char>)
    requires
        crate::dict::wf_view(dv),
    ensures
        forall|i: int|
            0 <= i < dv.keys.len() ==> (edit_dist(w, #[trigger] dv.keys[i]) <= 0 <==> dv.keys[i]
                == w),
        forall|i: int, j: int|
            0 <= i < dv.keys.len() && 0 <= j < dv.keys.len() && i != j ==> dv.keys[i]
                != dv.keys[j],
{
    assert forall|i: int| 0 <= i < dv.keys.len() implies (edit_dist(w, #[trigger] dv.keys[i])
        <= 0 <==> dv.keys[i] == w) by {
        lemma_ed_zero_iff_eq(w, dv.keys[i]);
    }
    crate::dict::lemma_sorted_distinct(dv.keys);
}

/// Computes the Levenshtein distance of two character vectors by dynamic
/// programming over prefix pairs, two table rows at a time.
pub fn edit_distance(a: &Vec<char>, b: &Vec<char>) -> (d: usize)
    ensures
        d == edit_dist(a@, b@),
{
    let m = a.len();
    let n = b.len();
    // Row for the empty prefix of `a`: distance to `b`'s prefixes.
    let mut prev: Vec<usize> = Vec::new();
    prev.push(0);
    let mut j: usize = 0;
    while j < n
        invariant
            n == b@.len(),
            j <= n,
            prev@.len() == j + 1,
            forall|k: int| 0 <= k <= j ==> prev@[k] == edit_dist(a@.take(0), b@.take(k)),
        decreases n - j,
    {
        proof {
            assert(a@.take(0) =~= Seq::<char>::empty());
            assert(b@.take(j + 1).len() == j + 1);
        }
        prev.push(j + 1);
        j = j + 1;
    }
    let mut i: usize = 0;
    while i < m
        invariant
            m == a@.len(),
            n == b@.len(),
            i <= m,
            prev@.len() == n + 1,
            forall|k: int| 0 <= k <= n ==> prev@[k] == edit_dist(a@.take(i as int), b@.take(k)),
        decreases m - i,
    {
        let mut curr: Vec<usize> = Vec::new();
        proof {
            assert(a@.take(i + 1).len() == i + 1);
            assert(b@.take(0) =~= Seq::<char>::empty());
        }
        curr.push(i + 1);
        let mut j: usize = 0;
        while j < n
            invariant
                m == a@.len(),
                n == b@.len(),
                i < m,
                j <= n,
                prev@.len() == n + 1,
                forall|k: int| 0 <= k <= n ==> prev@[k] == edit_dist(a@.take(i as int), b@.take(k)),
                curr@.len() == j + 1,
                forall|k: int| 0 <= k <= j ==> curr@[k] == edit_dist(a@.take(i + 1), b@.take(k)),
            decreases n - j,
        {
            let ga = Ghost(a@.take(i + 1));
            let gb = Ghost(b@.take(j + 1));
            proof {
                assert(ga@.last() == a@[i as int]);
                assert(gb@.last() == b@[j as int]);
                assert(ga@.drop_last() =~= a@.take(i as int));
                assert(gb@.drop_last() =~= b@.take(j as int));
            }
            let v: usize;
            if a[i] == b[j] {
                v = prev[j];
            } else {
                let mut mn = prev[j + 1];
                if curr[j] < mn {
                    mn = curr[j];
                }
                if prev[j] < mn {
                    mn = prev[j];
                }
                proof {
                    lemma_ed_le_max(a@.take(i as int), b@.take(j as int));
                    assert(mn == min3(
                        edit_dist(a@.take(i as int), b@.take(j + 1)),
                        edit_dist(a@.take(i + 1), b@.take(j as int)),
                        edit_dist(a@.take(i as int), b@.take(j as int)),
                    ));
                    assert(mn < usize::MAX);
                }
                v = mn + 1;
            }
            curr.push(v);
            j = j + 1;
        }
        prev = curr;
        i = i + 1;
    }
    proof {
        assert(a@.take(m as int) =~= a@);
        assert(b@.take(n as int) =~= b@);
    }
    prev[n]
}

impl Dictionary {
    /// Exact membership by binary search over the sorted keys: the
    /// position of a headword equal to `word`, if any.
    pub fn exact(&self, word: &str) -> (r: Option<usize>)
        requires
            self.wf(),
        ensures
            r matches Some(p) ==> p < self@.keys.len() && self@.keys[p as int] == word@,
            r is None ==> forall|i: int| 0 <= i < self@.keys.len() ==> self@.keys[i] != word@,
    {
        let mut lo: usize = 0;
        let mut hi: usize = self.len();
        while lo < hi
            invariant
                self.wf(),
                lo <= hi <= self@.keys.len(),
                forall|i: int| 0 <= i < lo ==> lex_lt(#[trigger] self@.keys[i], word@),
                forall|i: int|
                    hi <= i < self@.keys.len() ==> lex_lt(word@, #[trigger] self@.keys[i]),
            decreases hi - lo,
        {
            let mid = lo + (hi - lo) / 2;
            let k = self.key_at(mid);
            if str_eq(k.as_str(), word) {
                return Some(mid);
            }
            if str_lt(k.as_str(), word) {
                proof {
                    assert forall|i: int| 0 <= i < mid + 1 implies lex_lt(
                        #[trigger] self@.keys[i],
                        word@,
                    ) by {
                        if i < mid {
                            lemma_lex_trans(self@.keys[i], self@.keys[mid as int], word@);
                        }
                    }
                }
                lo = mid + 1;
            } else {
                proof {
                    lemma_lex_total(self@.keys[mid as int], word@);
                    assert(lex_lt(word@, self@.keys[mid as int]));
                    assert forall|i: int| mid <= i < self@.keys.len() implies lex_lt(
                        word@,
                        #[trigger] self@.keys[i],
                    ) by {
                        if i > mid {
                            lemma_lex_trans(word@, self@.keys[mid as int], self@.keys[i]);
                        }
                    }
                }
                hi = mid;
            }
        }
        proof {
            assert forall|i: int| 0 <= i < self@.keys.len() implies self@.keys[i] != word@ by {
                lemma_lex_irrefl(word@);
            }
        }
        None
    }

    /// Bounded edit-distance search: every headword within distance
    /// `max_distance` of `word`, with its position, in ascending key order.
    /// A headword is returned exactly when its distance is small enough.
    pub fn fuzzy(&self, word: &str, max_distance: u32) -> (r: Vec<(String, usize)>)
        ensures
            forall|t: int|
                0 <= t < r@.len() ==> {
                    &&& (#[trigger] r@[t]).1 < self@.keys.len()
                    &&& r@[t].0@ == self@.keys[r@[t].1 as int]
                    &&& edit_dist(word@, self@.keys[r@[t].1 as int]) <= max_distance
                },
            forall|t1: int, t2: int| 0 <= t1 < t2 < r@.len() ==> r@[t1].1 < r@[t2].1,
            forall|i: int|
                0 <= i < self@.keys.len() && edit_dist(word@, #[trigger] self@.keys[i])
                    <= max_distance ==> exists|t: int| 0 <= t < r@.len() && (#[trigger] r@[t]).1 == i,
    {
        let wchars = chars_of(word);
        let n = self.len();
        let mut r: Vec<(String, usize)> = Vec::new();
        let mut i: usize = 0;
        while i < n
            invariant
                n == self@.keys.len(),
                i <= n,
                wchars@ == word@,
                forall|t: int|
                    0 <= t < r@.len() ==> {
                        &&& (#[trigger] r@[t]).1 < i
                        &&& r@[t].0@ == self@.keys[r@[t].1 as int]
                        &&& edit_dist(word@, self@.keys[r@[t].1 as int]) <= max_distance
                    },
                forall|t1: int, t2: int| 0 <= t1 < t2 < r@.len() ==> r@[t1].1 < r@[t2].1,
                forall|k: int|
                    0 <= k < i && edit_dist(word@, #[trigger] self@.keys[k]) <= max_distance
                        ==> exists|t: int| 0 <= t < r@.len() && (#[trigger] r@[t]).1 == k,
            decreases n - i,
        {
            let key = self.key_at(i);
            let kchars = chars_of(key.as_str());
            let d = edit_distance(&wchars, &kchars);
            if d <= max_distance as usize {
                let ghost old_r = r@;
                r.push((key.clone(), i));
                proof {
                    assert(r@[r@.len() - 1].1 == i);
                    assert(forall|t: int| 0 <= t < old_r.len() ==> r@[t] == old_r[t]);
                    assert forall|k: int|
                        0 <= k < i + 1 && edit_dist(word@, #[trigger] self@.keys[k])
                            <= max_distance implies exists|t: int|
                        0 <= t < r@.len() && (#[trigger] r@[t]).1 == k by {
                        if k == i {
                            assert(r@[r@.len() - 1].1 == k);
                        } else {
                            let t = choose|t: int| 0 <= t < old_r.len() && (#[trigger] old_r[t]).1 == k;
                            assert(r@[t].1 == k);
                        }
                    }
                }
            }
            i = i + 1;
        }
        r
    }
}

} // verus!
