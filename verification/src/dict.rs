//! The dictionary data model: fields (senses) attached to headwords, and
//! the built dictionary itself, an immutable pair of a strictly sorted
//! headword sequence and a co-indexed table of field groups.

use vstd::prelude::*;

use crate::text::{lex_lt, lemma_lex_irrefl};

verus! {

/// The gloss of one sense: the primary text plus supplementary notes.
pub struct Explanation {
    pub body: String,
    pub complements: Vec<String>,
}

/// One sense of a headword: an optional tag, the gloss, and example
/// sentences in corpus order.
pub struct Field {
    pub ident: Option<String>,
    pub explanation: Explanation,
    pub examples: Vec<String>,
}

/// Mathematical image of an `Explanation`.
pub ghost struct ExplanationView {
    pub body: Seq<char>,
    pub complements: Seq<Seq<char>>,
}

/// Mathematical image of a `Field`.
pub ghost struct FieldView {
    pub ident: Option<Seq<char>>,
    pub explanation: ExplanationView,
    pub examples: Seq<Seq<char>>,
}

/// Mathematical image of a `Dictionary`.
pub ghost struct DictionaryView {
    pub keys: Seq<Seq<char>>,
    pub field_groups: Seq<Seq<FieldView>>,
}

impl View for Explanation {
    type V = ExplanationView;

    open spec fn view(&self) -> ExplanationView {
        ExplanationView { body: self.body@, complements: self.complements.deep_view() }
    }
}

impl DeepView for Explanation {
    type V = ExplanationView;

    open spec fn deep_view(&self) -> ExplanationView {
        self.view()
    }
}

impl View for Field {
    type V = FieldView;

    open spec fn view(&self) -> FieldView {
        FieldView {
            ident: self.ident.deep_view(),
            explanation: self.explanation@,
            examples: self.examples.deep_view(),
        }
    }
}

impl DeepView for Field {
    type V = FieldView;

    open spec fn deep_view(&self) -> FieldView {
        self.view()
    }
}

impl Clone for Explanation {
    fn clone(&self) -> (res: Self)
        ensures
            res@ == self@,
    {
        let res = Explanation { body: self.body.clone(), complements: self.complements.clone() };
        proof {
            assert(res.complements.deep_view() =~= self.complements.deep_view());
        }
        res
    }
}

impl Clone for Field {
    fn clone(&self) -> (res: Self)
        ensures
            res@ == self@,
    {
        let ident = match &self.ident {
            Some(s) => Some(s.clone()),
            None => None,
        };
        let res = Field {
            ident,
            explanation: self.explanation.clone(),
            examples: self.examples.clone(),
        };
        proof {
            assert(res.examples.deep_view() =~= self.examples.deep_view());
        }
        res
    }
}

/// Every pair of positions is strictly ordered: ascending and duplicate-free.
pub open spec fn sorted_strict(keys: Seq<Seq<char>>) -> bool {
    forall|i: int, j: int| 0 <= i < j < keys.len() ==> lex_lt(keys[i], keys[j])
}

/// In a strictly sorted sequence no two positions hold the same word.
pub proof fn lemma_sorted_distinct(keys: Seq<Seq<char>>)
    requires
        sorted_strict(keys),
    ensures
        forall|i: int, j: int|
            0 <= i < keys.len() && 0 <= j < keys.len() && i != j ==> keys[i] != keys[j],
{
    assert forall|i: int, j: int|
        0 <= i < keys.len() && 0 <= j < keys.len() && i != j implies keys[i] != keys[j] by {
        if i < j {
            lemma_lex_irrefl(keys[i]);
        } else {
            lemma_lex_irrefl(keys[j]);
        }
    }
}

/// A strictly sorted sequence stays strictly sorted when a word is inserted
/// at a position that all earlier words precede and that precedes all the
/// words from that position on.
pub proof fn lemma_sorted_insert(keys: Seq<Seq<char>>, p: int, w: Seq<char>)
    requires
        sorted_strict(keys),
        0 <= p <= keys.len(),
        forall|j: int| 0 <= j < p ==> lex_lt(keys[j], w),
        forall|j: int| p <= j < keys.len() ==> lex_lt(w, keys[j]),
    ensures
        sorted_strict(keys.insert(p, w)),
{
    let ks = keys.insert(p, w);
    assert forall|i: int, j: int| 0 <= i < j < ks.len() implies lex_lt(ks[i], ks[j]) by {
        if i == p {
            assert(ks[j] == keys[j - 1]);
        } else if j == p {
            assert(ks[i] == keys[i]);
        } else if i < p && j > p {
            assert(ks[i] == keys[i] && ks[j] == keys[j - 1]);
        } else if j < p {
            assert(ks[i] == keys[i] && ks[j] == keys[j]);
        } else {
            assert(ks[i] == keys[i - 1] && ks[j] == keys[j - 1]);
        }
    }
}

/// The built artifact: distinct headwords in strictly ascending order, and
/// for each headword the non-empty group of its fields. The fields are
/// private, so the structure cannot be altered after construction.
pub struct Dictionary {
    pub(crate) keys: Vec<String>,
    pub(crate) field_groups: Vec<Vec<Field>>,
}

impl View for Dictionary {
    type V = DictionaryView;

    closed spec fn view(&self) -> DictionaryView {
        DictionaryView {
            keys: self.keys.deep_view(),
            field_groups: self.field_groups.deep_view(),
        }
    }
}

/// Packs the two co-indexed parts into a dictionary. Only construction
/// sites inside the crate (the builder and the decoder) may call this.
pub(crate) fn new_dictionary(keys: Vec<String>, field_groups: Vec<Vec<Field>>) -> (d: Dictionary)
    ensures
        d@.keys == keys.deep_view(),
        d@.field_groups == field_groups.deep_view(),
{
    Dictionary { keys, field_groups }
}

/// Internal consistency of a dictionary's image: co-indexed parts of
/// equal length, keys in strictly ascending order, every group non-empty.
pub open spec fn wf_view(dv: DictionaryView) -> bool {
    &&& dv.keys.len() == dv.field_groups.len()
    &&& sorted_strict(dv.keys)
    &&& forall|i: int| 0 <= i < dv.field_groups.len() ==> dv.field_groups[i].len() > 0
}

impl Dictionary {
    /// Internal consistency: co-indexed parts of equal length, keys in
    /// strictly ascending order, every group non-empty.
    pub open spec fn wf(&self) -> bool {
        wf_view(self@)
    }

    /// The number of distinct headwords.
    pub fn len(&self) -> (n: usize)
        ensures
            n == self@.keys.len(),
    {
        self.keys.len()
    }

    /// The headword at a position.
    pub fn key_at(&self, i: usize) -> (k: &String)
        requires
            i < self@.keys.len(),
        ensures
            k@ == self@.keys[i as int],
    {
        &self.keys[i]
    }

    /// The fields of the headword at a position.
    pub fn fields_at(&self, i: usize) -> (fs: &Vec<Field>)
        requires
            i < self@.field_groups.len(),
        ensures
            fs.deep_view() == self@.field_groups[i as int],
    {
        &self.field_groups[i]
    }
}

} // verus!
