//! The dictionary builder: groups parsed (headword, field) entries by
//! headword and produces the sorted, duplicate-free key sequence with its
//! co-indexed field groups.

use vstd::prelude::*;

use crate::dict::{
    lemma_sorted_insert, new_dictionary, sorted_strict, Dictionary, Field, FieldView,
};
use crate::text::{lemma_lex_irrefl, lemma_lex_total, lemma_lex_trans, lex_lt, str_eq, str_lt};

verus! {

/// Building fails only when there is nothing to build from.
#[derive(Debug, PartialEq, Eq, Structural)]
pub enum BuildError {
    EmptyCorpus,
}

/// The fields that the entries attach to headword `w`, in entry order.
pub open spec fn group_of(es: Seq<(Seq<char>, FieldView)>, w: Seq<char>) -> Seq<FieldView>
    decreases es.len(),
{
    if es.len() == 0 {
        Seq::empty()
    } else {
        let pre = group_of(es.drop_last(), w);
        if es.last().0 == w {
            pre.push(es.last().1)
        } else {
            pre
        }
    }
}

/// A headword that no entry carries owns no fields.
pub proof fn lemma_group_of_absent(es: Seq<(Seq<char>, FieldView)>, w: Seq<char>)
    requires
        forall|j: int| 0 <= j < es.len() ==> (#[trigger] es[j]).0 != w,
    ensures
        group_of(es, w).len() == 0,
    decreases es.len(),
{
    if es.len() > 0 {
        assert(forall|j: int| 0 <= j < es.drop_last().len() ==> (#[trigger] es.drop_last()[j]).0
            != w);
        lemma_group_of_absent(es.drop_last(), w);
    }
}

/// Groups the entries by exact headword equality, keys ascending.
///
/// On non-empty input the result is a well-formed dictionary whose keys are
/// exactly the headwords of the entries and whose group at each key holds
/// that key's fields in their original order; no entry is dropped. Empty
/// input is refused as an empty corpus.
pub fn build(entries: &Vec<(String, Field)>) -> (r: Result<Dictionary, BuildError>)
    ensures
        r is Ok <==> entries@.len() > 0,
        r matches Err(e) ==> e == BuildError::EmptyCorpus,
        r matches Ok(d) ==> {
            &&& d.wf()
            &&& forall|i: int|
                0 <= i < d@.keys.len() ==> d@.field_groups[i] == group_of(
                    entries.deep_view(),
                    d@.keys[i],
                )
            &&& forall|j: int|
                0 <= j < entries@.len() ==> d@.keys.contains(
                    (#[trigger] entries.deep_view()[j]).0,
                )
        },
{
    if entries.len() == 0 {
        return Err(BuildError::EmptyCorpus);
    }
    let ghost es = entries.deep_view();
    let mut keys: Vec<String> = Vec::new();
    let mut groups: Vec<Vec<Field>> = Vec::new();
    let n = entries.len();
    let mut e: usize = 0;
    while e < n
        invariant
            n == entries@.len(),
            es == entries.deep_view(),
            es.len() == n,
            e <= n,
            keys@.len() == groups@.len(),
            sorted_strict(keys.deep_view()),
            forall|i: int| 0 <= i < groups@.len() ==> (#[trigger] groups@[i])@.len() > 0,
            forall|i: int|
                0 <= i < keys@.len() ==> (#[trigger] groups.deep_view()[i]) == group_of(
                    es.take(e as int),
                    keys.deep_view()[i],
                ),
            forall|j: int|
                0 <= j < e ==> keys.deep_view().contains((#[trigger] es[j]).0),
        decreases n - e,
    {
        let w: &String = &entries[e].0;
        proof {
            assert(es[e as int].0 == w@);
            assert(es[e as int].1 == entries@[e as int].1@);
        }
        let klen = keys.len();
        let p = lower_bound(&keys, w.as_str());
        let ghost kd = keys.deep_view();
        let ghost gd = groups.deep_view();
        let hit = if p < klen {
            proof {
                assert(kd[p as int] == keys@[p as int]@);
            }
            str_eq(keys[p].as_str(), w.as_str())
        } else {
            false
        };
        let f = entries[e].1.clone();
        if hit {
            // The headword is already present at position p: append its field.
            let ghost gv = groups@;
            let mut g = groups.remove(p);
            g.push(f);
            groups.insert(p, g);
            proof {
                assert(groups@ =~= gv.update(p as int, g));
                assert(g.deep_view() =~= gd[p as int].push(es[e as int].1));
                assert forall|i: int| 0 <= i < groups@.len() implies groups.deep_view()[i]
                    == gd.update(p as int, gd[p as int].push(es[e as int].1))[i] by {
                    assert(groups.deep_view()[i] == groups@[i].deep_view());
                    if i != p {
                        assert(groups@[i] == gv[i]);
                    }
                }
                assert(groups.deep_view() =~= gd.update(
                    p as int,
                    gd[p as int].push(es[e as int].1),
                ));
                lemma_step_existing(es, e as int, kd, gd, p as int);
                assert(forall|j: int|
                    0 <= j < e + 1 ==> kd.contains((#[trigger] es[j]).0));
            }
        } else {
            // New headword: p is its sorted position.
            proof {
                assert(forall|j: int| 0 <= j < p ==> lex_lt(kd[j], w@));
                if p < klen {
                    assert(!lex_lt(kd[p as int], w@) && kd[p as int] != w@);
                    lemma_lex_total(kd[p as int], w@);
                    assert(lex_lt(w@, kd[p as int]));
                }
                assert forall|j: int| p <= j < klen implies lex_lt(w@, kd[j]) by {
                    if j > p {
                        assert(lex_lt(kd[p as int], kd[j]));
                        lemma_lex_trans(w@, kd[p as int], kd[j]);
                    }
                }
                lemma_sorted_insert(kd, p as int, w@);
            }
            let mut g: Vec<Field> = Vec::new();
            g.push(f);
            keys.insert(p, w.clone());
            groups.insert(p, g);
            proof {
                assert(keys.deep_view() =~= kd.insert(p as int, es[e as int].0));
                assert(g.deep_view() =~= seq![es[e as int].1]);
                assert(groups.deep_view() =~= gd.insert(p as int, g.deep_view()));
                assert forall|j: int| 0 <= j < klen implies kd[j] != w@ by {
                    if j < p {
                        lemma_lex_irrefl(w@);
                    } else {
                        lemma_lex_irrefl(w@);
                    }
                }
                lemma_step_new(es, e as int, kd, gd, p as int, g.deep_view());
                assert forall|j: int| 0 <= j < e + 1 implies keys.deep_view().contains(
                    (#[trigger] es[j]).0,
                ) by {
                    if j < e {
                        let i = choose|i: int| 0 <= i < kd.len() && kd[i] == es[j].0;
                        if i < p {
                            assert(keys.deep_view()[i] == es[j].0);
                        } else {
                            assert(keys.deep_view()[i + 1] == es[j].0);
                        }
                    } else {
                        assert(keys.deep_view()[p as int] == es[j].0);
                    }
                }
            }
        }
        e = e + 1;
    }
    proof {
        assert(es.take(n as int) =~= es);
    }
    let d = new_dictionary(keys, groups);
    Ok(d)
}

/// The first position whose key the word does not come strictly after:
/// every key before it is strictly below the word.
fn lower_bound(keys: &Vec<String>, w: &str) -> (p: usize)
    ensures
        p <= keys@.len(),
        forall|j: int| 0 <= j < p ==> lex_lt(keys.deep_view()[j], w@),
        p < keys@.len() ==> !lex_lt(keys.deep_view()[p as int], w@),
{
    let n = keys.len();
    let mut p: usize = 0;
    loop
        invariant
            n == keys@.len(),
            p <= n,
            forall|j: int| 0 <= j < p ==> lex_lt(keys.deep_view()[j], w@),
        decreases n - p,
    {
        if p >= n {
            return p;
        }
        proof {
            assert(keys.deep_view()[p as int] == keys@[p as int]@);
        }
        if !str_lt(keys[p].as_str(), w) {
            return p;
        }
        p = p + 1;
    }
}

/// Appending an entry whose headword is the existing key at `p` extends
/// exactly that group and no other.
proof fn lemma_step_existing(
    es: Seq<(Seq<char>, FieldView)>,
    e: int,
    kd: Seq<Seq<char>>,
    gd: Seq<Seq<FieldView>>,
    p: int,
)
    requires
        0 <= e < es.len(),
        kd.len() == gd.len(),
        sorted_strict(kd),
        0 <= p < kd.len(),
        kd[p] == es[e].0,
        forall|i: int| 0 <= i < kd.len() ==> (#[trigger] gd[i]) == group_of(es.take(e), kd[i]),
    ensures
        forall|i: int|
            0 <= i < kd.len() ==> (#[trigger] gd.update(p, gd[p].push(es[e].1))[i]) == group_of(
                es.take(e + 1),
                kd[i],
            ),
{
    crate::dict::lemma_sorted_distinct(kd);
    assert(es.take(e + 1).drop_last() =~= es.take(e));
    assert(es.take(e + 1).last() == es[e]);
    assert forall|i: int| 0 <= i < kd.len() implies (#[trigger] gd.update(
        p,
        gd[p].push(es[e].1),
    )[i]) == group_of(es.take(e + 1), kd[i]) by {
        if i == p {
            assert(group_of(es.take(e + 1), kd[i]) == group_of(es.take(e), kd[i]).push(es[e].1));
        } else {
            assert(kd[i] != kd[p]);
            assert(group_of(es.take(e + 1), kd[i]) == group_of(es.take(e), kd[i]));
        }
    }
}

/// Inserting a fresh headword at `p` gives it exactly the new entry's field
/// and leaves every other group as it was.
proof fn lemma_step_new(
    es: Seq<(Seq<char>, FieldView)>,
    e: int,
    kd: Seq<Seq<char>>,
    gd: Seq<Seq<FieldView>>,
    p: int,
    g: Seq<FieldView>,
)
    requires
        0 <= e < es.len(),
        kd.len() == gd.len(),
        0 <= p <= kd.len(),
        g == seq![es[e].1],
        forall|j: int| 0 <= j < kd.len() ==> kd[j] != es[e].0,
        forall|j: int| 0 <= j < e ==> kd.contains((#[trigger] es[j]).0),
        forall|i: int| 0 <= i < kd.len() ==> (#[trigger] gd[i]) == group_of(es.take(e), kd[i]),
    ensures
        forall|i: int|
            0 <= i < kd.len() + 1 ==> (#[trigger] gd.insert(p, g)[i]) == group_of(
                es.take(e + 1),
                kd.insert(p, es[e].0)[i],
            ),
{
    assert(es.take(e + 1).drop_last() =~= es.take(e));
    assert(es.take(e + 1).last() == es[e]);
    assert forall|j: int| 0 <= j < es.take(e).len() implies (#[trigger] es.take(e)[j]).0
        != es[e].0 by {
        assert(kd.contains(es[j].0));
    }
    lemma_group_of_absent(es.take(e), es[e].0);
    assert forall|i: int| 0 <= i < kd.len() + 1 implies (#[trigger] gd.insert(p, g)[i])
        == group_of(es.take(e + 1), kd.insert(p, es[e].0)[i]) by {
        if i == p {
            assert(kd.insert(p, es[e].0)[i] == es[e].0);
            assert(group_of(es.take(e + 1), es[e].0) == group_of(es.take(e), es[e].0).push(
                es[e].1,
            ));
            assert(group_of(es.take(e), es[e].0).push(es[e].1) =~= g);
        } else if i < p {
            assert(gd.insert(p, g)[i] == gd[i]);
            assert(kd.insert(p, es[e].0)[i] == kd[i]);
            assert(kd[i] != es[e].0);
            assert(group_of(es.take(e + 1), kd[i]) == group_of(es.take(e), kd[i]));
        } else {
            assert(gd.insert(p, g)[i] == gd[i - 1]);
            assert(kd.insert(p, es[e].0)[i] == kd[i - 1]);
            assert(kd[i - 1] != es[e].0);
            assert(group_of(es.take(e + 1), kd[i - 1]) == group_of(es.take(e), kd[i - 1]));
        }
    }
}

} // verus!
