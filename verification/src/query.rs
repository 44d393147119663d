//! The query facade: runs the bounded edit-distance search, joins matches
//! with their field groups, and ranks literal-prefix matches before all
//! others. Also renders a field for display.

use vstd::prelude::*;

use crate::dict::{Dictionary, DictionaryView, Field, FieldView};
use crate::index::edit_dist;

verus! {

/// `p` is a literal prefix of `s`.
pub open spec fn is_prefix(p: Seq<char>, s: Seq<char>) -> bool {
    p.len() <= s.len() && s.take(p.len() as int) == p
}

/// Decides the prefix relation on string slices.
pub fn is_prefix_str(p: &str, s: &str) -> (r: bool)
    ensures
        r == is_prefix(p@, s@),
{
    let pn = p.unicode_len();
    let sn = s.unicode_len();
    if pn > sn {
        return false;
    }
    let mut i: usize = 0;
    while i < pn
        invariant
            pn == p@.len(),
            sn == s@.len(),
            pn <= sn,
            i <= pn,
            forall|k: int| 0 <= k < i ==> s@[k] == p@[k],
        decreases pn - i,
    {
        if p.get_char(i) != s.get_char(i) {
            proof {
                if is_prefix(p@, s@) {
                    assert(s@.take(pn as int)[i as int] == p@[i as int]);
                }
            }
            return false;
        }
        i = i + 1;
    }
    proof {
        assert(s@.take(pn as int) =~= p@);
    }
    true
}

/// One lookup result stands for a dictionary position: its key within the
/// given distance of the query, joined with that key's field group.
pub open spec fn hit_entry(
    dv: DictionaryView,
    q: Seq<char>,
    dist: u32,
    key: Seq<char>,
    fields: Seq<FieldView>,
) -> bool {
    exists|i: int|
        0 <= i < dv.keys.len() && dv.keys[i] == key && dv.field_groups[i] == fields && edit_dist(
            q,
            dv.keys[i],
        ) <= dist
}

/// Copies a field group.
fn clone_fields(fs: &Vec<Field>) -> (r: Vec<Field>)
    ensures
        r.deep_view() == fs.deep_view(),
{
    let n = fs.len();
    let mut r: Vec<Field> = Vec::new();
    let mut i: usize = 0;
    while i < n
        invariant
            n == fs@.len(),
            i <= n,
            r@.len() == i,
            forall|k: int| 0 <= k < i ==> (#[trigger] r.deep_view()[k]) == fs.deep_view()[k],
        decreases n - i,
    {
        let ghost old_rd = r.deep_view();
        r.push(fs[i].clone());
        proof {
            assert forall|k: int| 0 <= k < i + 1 implies (#[trigger] r.deep_view()[k])
                == fs.deep_view()[k] by {
                assert(r.deep_view()[k] == r@[k]@);
                if k < i {
                    assert(old_rd[k] == fs.deep_view()[k]);
                    assert(old_rd[k] == r@[k]@);
                } else {
                    assert(fs.deep_view()[k] == fs@[k]@);
                }
            }
        }
        i = i + 1;
    }
    proof {
        assert(r.deep_view() =~= fs.deep_view());
    }
    r
}

impl Dictionary {
    /// Answers a query: every headword within the distance bound, joined
    /// with its fields. An empty query returns the empty result at once;
    /// otherwise every close-enough headword is represented, and every
    /// result whose headword starts with the query precedes every result
    /// whose headword does not.
    pub fn lookup(&self, query: &str, max_distance: u32) -> (r: Vec<(String, Vec<Field>)>)
        requires
            self.wf(),
        ensures
            query@.len() == 0 ==> r@.len() == 0,
            forall|u: int|
                0 <= u < r@.len() ==> hit_entry(
                    self@,
                    query@,
                    max_distance,
                    (#[trigger] r@[u]).0@,
                    r@[u].1.deep_view(),
                ),
            query@.len() > 0 ==> forall|i: int|
                0 <= i < self@.keys.len() && edit_dist(query@, #[trigger] self@.keys[i])
                    <= max_distance ==> exists|u: int|
                    0 <= u < r@.len() && (#[trigger] r@[u]).0@ == self@.keys[i],
            forall|u1: int, u2: int|
                0 <= u1 < u2 < r@.len() && is_prefix(query@, (#[trigger] r@[u2]).0@) ==> is_prefix(
                    query@,
                    (#[trigger] r@[u1]).0@,
                ),
            forall|u1: int, u2: int|
                0 <= u1 < u2 < r@.len() && (is_prefix(query@, (#[trigger] r@[u1]).0@)
                    <==> is_prefix(query@, (#[trigger] r@[u2]).0@)) ==> crate::text::lex_lt(
                    r@[u1].0@,
                    r@[u2].0@,
                ),
    {
        if query.is_empty() {
            let r: Vec<(String, Vec<Field>)> = Vec::new();
            return r;
        }
        let hits = self.fuzzy(query, max_distance);
        let hn = hits.len();
        let mut pref: Vec<(String, Vec<Field>)> = Vec::new();
        let mut npref: Vec<(String, Vec<Field>)> = Vec::new();
        let ghost mut ppos: Seq<int> = Seq::empty();
        let ghost mut npos: Seq<int> = Seq::empty();
        let mut t: usize = 0;
        while t < hn
            invariant
                self.wf(),
                hn == hits@.len(),
                t <= hn,
                ppos.len() == pref@.len(),
                npos.len() == npref@.len(),
                forall|u: int|
                    0 <= u < ppos.len() ==> exists|t0: int|
                        0 <= t0 < t && #[trigger] ppos[u] == hits@[t0].1,
                forall|u: int|
                    0 <= u < npos.len() ==> exists|t0: int|
                        0 <= t0 < t && #[trigger] npos[u] == hits@[t0].1,
                forall|u: int|
                    0 <= u < ppos.len() ==> 0 <= #[trigger] ppos[u] < self@.keys.len()
                        && pref@[u].0@ == self@.keys[ppos[u]],
                forall|u: int|
                    0 <= u < npos.len() ==> 0 <= #[trigger] npos[u] < self@.keys.len()
                        && npref@[u].0@ == self@.keys[npos[u]],
                forall|u1: int, u2: int| 0 <= u1 < u2 < ppos.len() ==> ppos[u1] < ppos[u2],
                forall|u1: int, u2: int| 0 <= u1 < u2 < npos.len() ==> npos[u1] < npos[u2],
                forall|t1: int, t2: int|
                    0 <= t1 < t2 < hn ==> (#[trigger] hits@[t1]).1 < (#[trigger] hits@[t2]).1,
                forall|t0: int|
                    0 <= t0 < hn ==> {
                        &&& (#[trigger] hits@[t0]).1 < self@.keys.len()
                        &&& hits@[t0].0@ == self@.keys[hits@[t0].1 as int]
                        &&& edit_dist(query@, self@.keys[hits@[t0].1 as int]) <= max_distance
                    },
                forall|u: int|
                    0 <= u < pref@.len() ==> is_prefix(query@, (#[trigger] pref@[u]).0@)
                        && hit_entry(
                        self@,
                        query@,
                        max_distance,
                        pref@[u].0@,
                        pref@[u].1.deep_view(),
                    ),
                forall|u: int|
                    0 <= u < npref@.len() ==> !is_prefix(query@, (#[trigger] npref@[u]).0@)
                        && hit_entry(
                        self@,
                        query@,
                        max_distance,
                        npref@[u].0@,
                        npref@[u].1.deep_view(),
                    ),
                forall|t0: int|
                    0 <= t0 < t ==> (exists|u: int|
                        0 <= u < pref@.len() && (#[trigger] pref@[u]).0@ == (
                        #[trigger] hits@[t0]).0@) || (exists|u: int|
                        0 <= u < npref@.len() && (#[trigger] npref@[u]).0@ == hits@[t0].0@),
            decreases hn - t,
        {
            let key_ref = &hits[t].0;
            let pos = hits[t].1;
            let fields = clone_fields(self.fields_at(pos));
            let pair = (key_ref.clone(), fields);
            proof {
                assert(pair.0@ == self@.keys[pos as int]);
                assert(hit_entry(self@, query@, max_distance, pair.0@, pair.1.deep_view()));
            }
            let ghost old_pd = pref@;
            let ghost old_nd = npref@;
            if is_prefix_str(query, key_ref.as_str()) {
                pref.push(pair);
                proof {
                    ppos = ppos.push(pos as int);
                    assert forall|u: int| 0 <= u < ppos.len() implies exists|t0: int|
                        0 <= t0 < t + 1 && #[trigger] ppos[u] == hits@[t0].1 by {
                        if u < ppos.len() - 1 {
                            let t0 = choose|t0: int| 0 <= t0 < t && ppos[u] == hits@[t0].1;
                            assert(0 <= t0 < t + 1 && ppos[u] == hits@[t0].1);
                        } else {
                            assert(ppos[u] == hits@[t as int].1);
                        }
                    }
                    assert forall|u1: int, u2: int| 0 <= u1 < u2 < ppos.len() implies ppos[u1]
                        < ppos[u2] by {
                        if u2 == ppos.len() - 1 {
                            let t0 = choose|t0: int| 0 <= t0 < t && ppos[u1] == hits@[t0].1;
                            assert(hits@[t0].1 < hits@[t as int].1);
                        }
                    }
                }
            } else {
                npref.push(pair);
                proof {
                    npos = npos.push(pos as int);
                    assert forall|u: int| 0 <= u < npos.len() implies exists|t0: int|
                        0 <= t0 < t + 1 && #[trigger] npos[u] == hits@[t0].1 by {
                        if u < npos.len() - 1 {
                            let t0 = choose|t0: int| 0 <= t0 < t && npos[u] == hits@[t0].1;
                            assert(0 <= t0 < t + 1 && npos[u] == hits@[t0].1);
                        } else {
                            assert(npos[u] == hits@[t as int].1);
                        }
                    }
                    assert forall|u1: int, u2: int| 0 <= u1 < u2 < npos.len() implies npos[u1]
                        < npos[u2] by {
                        if u2 == npos.len() - 1 {
                            let t0 = choose|t0: int| 0 <= t0 < t && npos[u1] == hits@[t0].1;
                            assert(hits@[t0].1 < hits@[t as int].1);
                        }
                    }
                }
            }
            proof {
                assert(pref@[pref@.len() - 1].0@ == hits@[t as int].0@ || npref@[npref@.len()
                    - 1].0@ == hits@[t as int].0@);
                assert forall|t0: int| 0 <= t0 < t + 1 implies (exists|u: int|
                    0 <= u < pref@.len() && (#[trigger] pref@[u]).0@ == (
                    #[trigger] hits@[t0]).0@) || (exists|u: int|
                    0 <= u < npref@.len() && (#[trigger] npref@[u]).0@ == hits@[t0].0@) by {
                    if t0 < t {
                        if exists|u: int|
                            0 <= u < old_pd.len() && (#[trigger] old_pd[u]).0@ == hits@[t0].0@ {
                            let u = choose|u: int|
                                0 <= u < old_pd.len() && (#[trigger] old_pd[u]).0@
                                    == hits@[t0].0@;
                            assert(pref@[u].0@ == hits@[t0].0@);
                        } else {
                            let u = choose|u: int|
                                0 <= u < old_nd.len() && (#[trigger] old_nd[u]).0@
                                    == hits@[t0].0@;
                            assert(npref@[u].0@ == hits@[t0].0@);
                        }
                    } else {
                        if pref@.len() > 0 && pref@[pref@.len() - 1].0@ == hits@[t0].0@ {
                            assert(pref@[pref@.len() - 1].0@ == hits@[t0].0@);
                        } else {
                            assert(npref@[npref@.len() - 1].0@ == hits@[t0].0@);
                        }
                    }
                }
            }
            t = t + 1;
        }
        let mut r = pref;
        let ghost pd = r@;
        let ghost nd = npref@;
        r.append(&mut npref);
        proof {
            assert(r@ == pd + nd);
            assert(forall|u: int| 0 <= u < pd.len() ==> r@[u] == pd[u]);
            assert(forall|u: int| 0 <= u < nd.len() ==> r@[pd.len() + u] == nd[u]);
            assert forall|i: int|
                0 <= i < self@.keys.len() && edit_dist(query@, #[trigger] self@.keys[i])
                    <= max_distance implies exists|u: int|
                0 <= u < r@.len() && (#[trigger] r@[u]).0@ == self@.keys[i] by {
                let t0 = choose|t0: int| 0 <= t0 < hits@.len() && (#[trigger] hits@[t0]).1 == i;
                assert(hits@[t0].0@ == self@.keys[i]);
                if exists|u: int| 0 <= u < pd.len() && (#[trigger] pd[u]).0@ == hits@[t0].0@ {
                    let u = choose|u: int|
                        0 <= u < pd.len() && (#[trigger] pd[u]).0@ == hits@[t0].0@;
                    assert(r@[u].0@ == self@.keys[i]);
                } else {
                    let u = choose|u: int|
                        0 <= u < nd.len() && (#[trigger] nd[u]).0@ == hits@[t0].0@;
                    assert(r@[pd.len() + u].0@ == self@.keys[i]);
                }
            }
            assert forall|u1: int, u2: int|
                0 <= u1 < u2 < r@.len() && is_prefix(query@, (#[trigger] r@[u2]).0@) implies
                is_prefix(query@, (#[trigger] r@[u1]).0@) by {
                if u2 >= pd.len() {
                    assert(r@[u2] == nd[u2 - pd.len()]);
                    assert(!is_prefix(query@, r@[u2].0@));
                } else {
                    assert(r@[u1] == pd[u1]);
                }
            }
            assert forall|u1: int, u2: int|
                0 <= u1 < u2 < r@.len() && (is_prefix(query@, (#[trigger] r@[u1]).0@)
                    <==> is_prefix(query@, (#[trigger] r@[u2]).0@)) implies crate::text::lex_lt(
                r@[u1].0@,
                r@[u2].0@,
            ) by {
                if u1 < pd.len() && u2 < pd.len() {
                    assert(r@[u1] == pd[u1] && r@[u2] == pd[u2]);
                    assert(ppos[u1] < ppos[u2]);
                    assert(pd[u1].0@ == self@.keys[ppos[u1]]);
                    assert(pd[u2].0@ == self@.keys[ppos[u2]]);
                } else if u1 >= pd.len() && u2 >= pd.len() {
                    let v1 = u1 - pd.len();
                    let v2 = u2 - pd.len();
                    assert(r@[u1] == nd[v1] && r@[u2] == nd[v2]);
                    assert(npos[v1] < npos[v2]);
                    assert(nd[v1].0@ == self@.keys[npos[v1]]);
                    assert(nd[v2].0@ == self@.keys[npos[v2]]);
                } else {
                    assert(r@[u1] == pd[u1]);
                    assert(r@[u2] == nd[u2 - pd.len()]);
                    assert(is_prefix(query@, r@[u1].0@));
                    assert(!is_prefix(query@, r@[u2].0@));
                }
            }
        }
        r
    }
}

/// The display form of one sense: the tag in braces if present, the gloss
/// body, each complement after its marker, and each example indented on a
/// line of its own.
pub open spec fn spec_render(f: FieldView) -> Seq<char> {
    spec_header(f.ident) + f.explanation.body + spec_comp_part(f.explanation.complements)
        + spec_ex_part(f.examples)
}

/// `{tag} : ` for a tagged sense, nothing otherwise.
pub open spec fn spec_header(id: Option<Seq<char>>) -> Seq<char> {
    match id {
        Option::Some(s) => seq!['{'] + s + seq!['}', ' ', ':', ' '],
        Option::None => Seq::empty(),
    }
}

/// Every complement, each after the complement marker.
pub open spec fn spec_comp_part(cs: Seq<Seq<char>>) -> Seq<char>
    decreases cs.len(),
{
    if cs.len() == 0 {
        Seq::empty()
    } else {
        spec_comp_part(cs.drop_last()) + seq![crate::parse::MARK_COMP] + cs.last()
    }
}

/// Every example, each on its own indented line.
pub open spec fn spec_ex_part(es: Seq<Seq<char>>) -> Seq<char>
    decreases es.len(),
{
    if es.len() == 0 {
        Seq::empty()
    } else {
        spec_ex_part(es.drop_last()) + seq!['\n', ' ', ' ', ' ', ' ', ' ', ' ', ' ', ' ']
            + es.last()
    }
}

/// Renders one field for display.
pub fn render_field(f: &Field) -> (r: String)
    ensures
        r@ == spec_render(f@),
{
    proof {
        reveal_strlit("{");
        reveal_strlit("} : ");
        reveal_strlit("\u{25c6}");
        reveal_strlit("\n        ");
    }
    let mut out = String::new();
    match &f.ident {
        Option::Some(tag) => {
            out.append("{");
            out.append(tag.as_str());
            out.append("} : ");
            proof {
                assert(out@ =~= spec_header(f@.ident));
            }
        },
        Option::None => {
            proof {
                assert(out@ =~= spec_header(f@.ident));
            }
        },
    }
    out.append(f.explanation.body.as_str());
    let ghost base = spec_header(f@.ident) + f@.explanation.body;
    proof {
        assert(out@ =~= base);
    }
    let cn = f.explanation.complements.len();
    let mut i: usize = 0;
    while i < cn
        invariant
            cn == f.explanation.complements@.len(),
            i <= cn,
            base == spec_header(f@.ident) + f@.explanation.body,
            out@ == base + spec_comp_part(f@.explanation.complements.take(i as int)),
        decreases cn - i,
    {
        proof {
            reveal_strlit("\u{25c6}");
        }
        out.append("\u{25c6}");
        out.append(f.explanation.complements[i].as_str());
        proof {
            let cs = f@.explanation.complements;
            assert(cs.take(i + 1).drop_last() =~= cs.take(i as int));
            assert(cs.take(i + 1).last() == cs[i as int]);
            assert(f.explanation.complements@[i as int]@ == cs[i as int]);
            assert("\u{25c6}"@ =~= seq![crate::parse::MARK_COMP]);
            assert(out@ =~= base + spec_comp_part(cs.take(i + 1)));
        }
        i = i + 1;
    }
    let ghost base2 = base + spec_comp_part(f@.explanation.complements);
    proof {
        assert(f@.explanation.complements.take(cn as int) =~= f@.explanation.complements);
        assert(out@ == base2);
    }
    let en = f.examples.len();
    let mut j: usize = 0;
    while j < en
        invariant
            en == f.examples@.len(),
            j <= en,
            base2 == spec_header(f@.ident) + f@.explanation.body + spec_comp_part(
                f@.explanation.complements,
            ),
            out@ == base2 + spec_ex_part(f@.examples.take(j as int)),
        decreases en - j,
    {
        proof {
            reveal_strlit("\n        ");
        }
        out.append("\n        ");
        out.append(f.examples[j].as_str());
        proof {
            let es = f@.examples;
            assert(es.take(j + 1).drop_last() =~= es.take(j as int));
            assert(es.take(j + 1).last() == es[j as int]);
            assert(f.examples@[j as int]@ == es[j as int]);
            assert("\n        "@ =~= seq!['\n', ' ', ' ', ' ', ' ', ' ', ' ', ' ', ' ']);
            assert(out@ =~= base2 + spec_ex_part(es.take(j + 1)));
        }
        j = j + 1;
    }
    proof {
        assert(f@.examples.take(en as int) =~= f@.examples);
        assert(out@ == spec_render(f@));
    }
    out
}

} // verus!
