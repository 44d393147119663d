//! The cache store: a byte encoding of the built dictionary and its
//! decoder, with the round-trip law. Strings travel as character counts
//! followed by each character's scalar value, all numbers as four
//! little-endian bytes; the decoder refuses anything that is not a whole,
//! well-formed encoding.

use vstd::prelude::*;
use vstd::utf8::{char_is_scalar, char_u32_cast, is_scalar};

use crate::dict::{
    new_dictionary, sorted_strict, Dictionary, DictionaryView, Explanation, ExplanationView,
    Field, FieldView,
};
use crate::text::{lex_lt, str_lt, string_from_chars};

verus! {

// ---------------------------------------------------------------------
// Size bounds: every count stored must fit in a four-byte number.
// ---------------------------------------------------------------------

pub open spec fn fits_str(s: Seq<char>) -> bool {
    s.len() <= u32::MAX
}

pub open spec fn fits_field(f: FieldView) -> bool {
    &&& (f.ident matches Some(s) ==> fits_str(s))
    &&& fits_str(f.explanation.body)
    &&& f.explanation.complements.len() <= u32::MAX
    &&& forall|i: int|
        0 <= i < f.explanation.complements.len() ==> fits_str(
            #[trigger] f.explanation.complements[i],
        )
    &&& f.examples.len() <= u32::MAX
    &&& forall|i: int| 0 <= i < f.examples.len() ==> fits_str(#[trigger] f.examples[i])
}

pub open spec fn fits_dict(dv: DictionaryView) -> bool {
    &&& dv.keys.len() <= u32::MAX
    &&& forall|i: int| 0 <= i < dv.keys.len() ==> fits_str(#[trigger] dv.keys[i])
    &&& forall|i: int|
        0 <= i < dv.field_groups.len() ==> (#[trigger] dv.field_groups[i]).len() <= u32::MAX
            && forall|j: int|
            0 <= j < dv.field_groups[i].len() ==> fits_field(#[trigger] dv.field_groups[i][j])
}

// ---------------------------------------------------------------------
// Encoders, over the mathematical views.
// ---------------------------------------------------------------------

pub open spec fn enc_u32(x: u32) -> Seq<u8> {
    seq![
        (x % 256) as u8,
        ((x / 256) % 256) as u8,
        ((x / 65536) % 256) as u8,
        ((x / 16777216) % 256) as u8,
    ]
}

pub open spec fn enc_chars(s: Seq<char>) -> Seq<u8>
    decreases s.len(),
{
    if s.len() == 0 {
        Seq::empty()
    } else {
        enc_u32(s[0] as u32) + enc_chars(s.skip(1))
    }
}

pub open spec fn enc_str(s: Seq<char>) -> Seq<u8> {
    enc_u32(s.len() as u32) + enc_chars(s)
}

pub open spec fn enc_opt_str(o: Option<Seq<char>>) -> Seq<u8> {
    match o {
        Option::None => seq![0u8],
        Option::Some(s) => seq![1u8] + enc_str(s),
    }
}

pub open spec fn enc_str_list(v: Seq<Seq<char>>) -> Seq<u8>
    decreases v.len(),
{
    if v.len() == 0 {
        Seq::empty()
    } else {
        enc_str(v[0]) + enc_str_list(v.skip(1))
    }
}

pub open spec fn enc_strs(v: Seq<Seq<char>>) -> Seq<u8> {
    enc_u32(v.len() as u32) + enc_str_list(v)
}

pub open spec fn enc_field(f: FieldView) -> Seq<u8> {
    enc_opt_str(f.ident) + enc_str(f.explanation.body) + enc_strs(f.explanation.complements)
        + enc_strs(f.examples)
}

pub open spec fn enc_field_list(fs: Seq<FieldView>) -> Seq<u8>
    decreases fs.len(),
{
    if fs.len() == 0 {
        Seq::empty()
    } else {
        enc_field(fs[0]) + enc_field_list(fs.skip(1))
    }
}

pub open spec fn enc_fields(fs: Seq<FieldView>) -> Seq<u8> {
    enc_u32(fs.len() as u32) + enc_field_list(fs)
}

pub open spec fn enc_pairs(keys: Seq<Seq<char>>, groups: Seq<Seq<FieldView>>) -> Seq<u8>
    decreases keys.len(),
{
    if keys.len() == 0 {
        Seq::empty()
    } else {
        enc_str(keys[0]) + enc_fields(groups[0]) + enc_pairs(keys.skip(1), groups.skip(1))
    }
}

/// The whole blob: the key count, then each key with its field group.
pub open spec fn enc_dict(dv: DictionaryView) -> Seq<u8> {
    enc_u32(dv.keys.len() as u32) + enc_pairs(dv.keys, dv.field_groups)
}

// ---------------------------------------------------------------------
// Decoders, over byte sequences; each yields the value and the position
// after it, or nothing.
// ---------------------------------------------------------------------

pub open spec fn dec_u32(b: Seq<u8>, pos: int) -> Option<(u32, int)> {
    if 0 <= pos && pos + 4 <= b.len() {
        Some(
            (
                ((b[pos] as int) + 256 * (b[pos + 1] as int) + 65536 * (b[pos + 2] as int)
                    + 16777216 * (b[pos + 3] as int)) as u32,
                pos + 4,
            ),
        )
    } else {
        None
    }
}

pub open spec fn dec_char(b: Seq<u8>, pos: int) -> Option<(char, int)> {
    match dec_u32(b, pos) {
        Option::None => None,
        Option::Some((u, p)) => {
            if is_scalar(u) {
                Some((u as char, p))
            } else {
                None
            }
        },
    }
}

pub open spec fn dec_chars(b: Seq<u8>, pos: int, n: nat) -> Option<(Seq<char>, int)>
    decreases n,
{
    if n == 0 {
        Some((Seq::empty(), pos))
    } else {
        match dec_char(b, pos) {
            Option::None => None,
            Option::Some((c, p1)) => match dec_chars(b, p1, (n - 1) as nat) {
                Option::None => None,
                Option::Some((s, p2)) => Some((seq![c] + s, p2)),
            },
        }
    }
}

pub open spec fn dec_str(b: Seq<u8>, pos: int) -> Option<(Seq<char>, int)> {
    match dec_u32(b, pos) {
        Option::None => None,
        Option::Some((n, p1)) => dec_chars(b, p1, n as nat),
    }
}

pub open spec fn dec_opt_str(b: Seq<u8>, pos: int) -> Option<(Option<Seq<char>>, int)> {
    if 0 <= pos && pos + 1 <= b.len() {
        if b[pos] == 0u8 {
            Some((None, pos + 1))
        } else if b[pos] == 1u8 {
            match dec_str(b, pos + 1) {
                Option::None => None,
                Option::Some((s, p)) => Some((Some(s), p)),
            }
        } else {
            None
        }
    } else {
        None
    }
}

pub open spec fn dec_str_list(b: Seq<u8>, pos: int, n: nat) -> Option<(Seq<Seq<char>>, int)>
    decreases n,
{
    if n == 0 {
        Some((Seq::empty(), pos))
    } else {
        match dec_str(b, pos) {
            Option::None => None,
            Option::Some((s, p1)) => match dec_str_list(b, p1, (n - 1) as nat) {
                Option::None => None,
                Option::Some((v, p2)) => Some((seq![s] + v, p2)),
            },
        }
    }
}

pub open spec fn dec_strs(b: Seq<u8>, pos: int) -> Option<(Seq<Seq<char>>, int)> {
    match dec_u32(b, pos) {
        Option::None => None,
        Option::Some((n, p1)) => dec_str_list(b, p1, n as nat),
    }
}

pub open spec fn dec_field(b: Seq<u8>, pos: int) -> Option<(FieldView, int)> {
    match dec_opt_str(b, pos) {
        Option::None => None,
        Option::Some((ident, p1)) => match dec_str(b, p1) {
            Option::None => None,
            Option::Some((body, p2)) => match dec_strs(b, p2) {
                Option::None => None,
                Option::Some((comps, p3)) => match dec_strs(b, p3) {
                    Option::None => None,
                    Option::Some((exs, p4)) => Some(
                        (
                            FieldView {
                                ident,
                                explanation: ExplanationView { body, complements: comps },
                                examples: exs,
                            },
                            p4,
                        ),
                    ),
                },
            },
        },
    }
}

pub open spec fn dec_field_list(b: Seq<u8>, pos: int, n: nat) -> Option<(Seq<FieldView>, int)>
    decreases n,
{
    if n == 0 {
        Some((Seq::empty(), pos))
    } else {
        match dec_field(b, pos) {
            Option::None => None,
            Option::Some((f, p1)) => match dec_field_list(b, p1, (n - 1) as nat) {
                Option::None => None,
                Option::Some((fs, p2)) => Some((seq![f] + fs, p2)),
            },
        }
    }
}

pub open spec fn dec_fields(b: Seq<u8>, pos: int) -> Option<(Seq<FieldView>, int)> {
    match dec_u32(b, pos) {
        Option::None => None,
        Option::Some((n, p1)) => dec_field_list(b, p1, n as nat),
    }
}

pub open spec fn dec_pairs(b: Seq<u8>, pos: int, n: nat) -> Option<
    ((Seq<Seq<char>>, Seq<Seq<FieldView>>), int),
>
    decreases n,
{
    if n == 0 {
        Some(((Seq::empty(), Seq::empty()), pos))
    } else {
        match dec_str(b, pos) {
            Option::None => None,
            Option::Some((k, p1)) => match dec_fields(b, p1) {
                Option::None => None,
                Option::Some((fs, p2)) => match dec_pairs(b, p2, (n - 1) as nat) {
                    Option::None => None,
                    Option::Some(((ks, gs), p3)) => Some(
                        ((seq![k] + ks, seq![fs] + gs), p3),
                    ),
                },
            },
        }
    }
}

pub open spec fn dec_dict(b: Seq<u8>) -> Option<DictionaryView> {
    match dec_u32(b, 0) {
        Option::None => None,
        Option::Some((n, p1)) => match dec_pairs(b, p1, n as nat) {
            Option::None => None,
            Option::Some(((ks, gs), p2)) => {
                if p2 == b.len() {
                    Some(DictionaryView { keys: ks, field_groups: gs })
                } else {
                    None
                }
            },
        },
    }
}

/// What the decoder accepts: a whole buffer holding one well-formed
/// dictionary.
pub open spec fn spec_decode(b: Seq<u8>) -> Option<DictionaryView> {
    match dec_dict(b) {
        Option::None => None,
        Option::Some(dv) => {
            if crate::dict::wf_view(dv) {
                Some(dv)
            } else {
                None
            }
        },
    }
}

// ---------------------------------------------------------------------
// Round trip: decoding an encoding embedded in a larger buffer yields
// the encoded value and stops right after it.
// ---------------------------------------------------------------------

/// A buffer region holding a concatenation holds each part in place.
proof fn lemma_subrange_split(b: Seq<u8>, pos: int, e1: Seq<u8>, e2: Seq<u8>)
    requires
        0 <= pos,
        pos + e1.len() + e2.len() <= b.len(),
        b.subrange(pos, pos + e1.len() + e2.len()) == e1 + e2,
    ensures
        b.subrange(pos, pos + e1.len() as int) == e1,
        b.subrange(pos + e1.len(), pos + e1.len() + e2.len() as int) == e2,
{
    assert(b.subrange(pos, pos + e1.len() as int) =~= e1);
    assert forall|i: int| 0 <= i < e2.len() implies b[pos + e1.len() + i] == e2[i] by {
        assert(b.subrange(pos, pos + e1.len() + e2.len())[e1.len() + i] == (e1 + e2)[e1.len()
            + i]);
        assert(b.subrange(pos, pos + e1.len() + e2.len())[e1.len() + i] == b[pos + e1.len()
            + i]);
        assert((e1 + e2)[e1.len() + i] == e2[i]);
    }
    assert(b.subrange(pos + e1.len(), pos + e1.len() + e2.len() as int) =~= e2);
}

proof fn lemma_dec_u32_enc(b: Seq<u8>, pos: int, x: u32)
    requires
        0 <= pos,
        pos + 4 <= b.len(),
        b.subrange(pos, pos + 4) == enc_u32(x),
    ensures
        dec_u32(b, pos) == Some((x, pos + 4)),
{
    assert(b[pos] == enc_u32(x)[0]);
    assert(b[pos + 1] == enc_u32(x)[1]);
    assert(b[pos + 2] == enc_u32(x)[2]);
    assert(b[pos + 3] == enc_u32(x)[3]);
    let xi = x as int;
    assert(xi % 256 + 256 * ((xi / 256) % 256) + 65536 * ((xi / 65536) % 256) + 16777216 * ((xi
        / 16777216) % 256) == xi) by (nonlinear_arith)
        requires
            0 <= xi < 4294967296,
    ;
}

proof fn lemma_dec_char_enc(b: Seq<u8>, pos: int, c: char)
    requires
        0 <= pos,
        pos + 4 <= b.len(),
        b.subrange(pos, pos + 4) == enc_u32(c as u32),
    ensures
        dec_char(b, pos) == Some((c, pos + 4)),
{
    lemma_dec_u32_enc(b, pos, c as u32);
    char_is_scalar(c);
    char_u32_cast(c, c as u32);
}

proof fn lemma_enc_chars_len(s: Seq<char>)
    ensures
        enc_chars(s).len() == 4 * s.len(),
    decreases s.len(),
{
    if s.len() > 0 {
        lemma_enc_chars_len(s.skip(1));
    }
}

proof fn lemma_dec_chars_enc(b: Seq<u8>, pos: int, s: Seq<char>)
    requires
        0 <= pos,
        pos + enc_chars(s).len() <= b.len(),
        b.subrange(pos, pos + enc_chars(s).len()) == enc_chars(s),
    ensures
        dec_chars(b, pos, s.len()) == Some((s, pos + enc_chars(s).len())),
    decreases s.len(),
{
    if s.len() == 0 {
        assert(s =~= Seq::<char>::empty());
    } else {
        let e1 = enc_u32(s[0] as u32);
        let e2 = enc_chars(s.skip(1));
        assert(enc_chars(s) == e1 + e2);
        lemma_subrange_split(b, pos, e1, e2);
        lemma_dec_char_enc(b, pos, s[0]);
        lemma_dec_chars_enc(b, pos + 4, s.skip(1));
        assert(seq![s[0]] + s.skip(1) =~= s);
    }
}

proof fn lemma_dec_str_enc(b: Seq<u8>, pos: int, s: Seq<char>)
    requires
        0 <= pos,
        fits_str(s),
        pos + enc_str(s).len() <= b.len(),
        b.subrange(pos, pos + enc_str(s).len()) == enc_str(s),
    ensures
        dec_str(b, pos) == Some((s, pos + enc_str(s).len())),
{
    let e1 = enc_u32(s.len() as u32);
    let e2 = enc_chars(s);
    assert(enc_str(s) == e1 + e2);
    lemma_subrange_split(b, pos, e1, e2);
    lemma_dec_u32_enc(b, pos, s.len() as u32);
    lemma_dec_chars_enc(b, pos + 4, s);
    assert((s.len() as u32) as nat == s.len());
}

proof fn lemma_dec_opt_str_enc(b: Seq<u8>, pos: int, o: Option<Seq<char>>)
    requires
        0 <= pos,
        o matches Some(s) ==> fits_str(s),
        pos + enc_opt_str(o).len() <= b.len(),
        b.subrange(pos, pos + enc_opt_str(o).len()) == enc_opt_str(o),
    ensures
        dec_opt_str(b, pos) == Some((o, pos + enc_opt_str(o).len())),
{
    match o {
        Option::None => {
            assert(b[pos] == enc_opt_str(o)[0]);
        },
        Option::Some(s) => {
            assert(enc_opt_str(o) == seq![1u8] + enc_str(s));
            lemma_subrange_split(b, pos, seq![1u8], enc_str(s));
            assert(b[pos] == b.subrange(pos, pos + 1)[0]);
            lemma_dec_str_enc(b, pos + 1, s);
        },
    }
}

proof fn lemma_dec_str_list_enc(b: Seq<u8>, pos: int, v: Seq<Seq<char>>)
    requires
        0 <= pos,
        forall|i: int| 0 <= i < v.len() ==> fits_str(#[trigger] v[i]),
        pos + enc_str_list(v).len() <= b.len(),
        b.subrange(pos, pos + enc_str_list(v).len()) == enc_str_list(v),
    ensures
        dec_str_list(b, pos, v.len()) == Some((v, pos + enc_str_list(v).len())),
    decreases v.len(),
{
    if v.len() == 0 {
        assert(v =~= Seq::<Seq<char>>::empty());
    } else {
        let e0 = enc_str(v[0]);
        let rest = enc_str_list(v.skip(1));
        assert(enc_str_list(v) == e0 + rest);
        lemma_subrange_split(b, pos, e0, rest);
        lemma_dec_str_enc(b, pos, v[0]);
        lemma_dec_str_list_enc(b, pos + e0.len(), v.skip(1));
        assert(seq![v[0]] + v.skip(1) =~= v);
    }
}

proof fn lemma_dec_strs_enc(b: Seq<u8>, pos: int, v: Seq<Seq<char>>)
    requires
        0 <= pos,
        v.len() <= u32::MAX,
        forall|i: int| 0 <= i < v.len() ==> fits_str(#[trigger] v[i]),
        pos + enc_strs(v).len() <= b.len(),
        b.subrange(pos, pos + enc_strs(v).len()) == enc_strs(v),
    ensures
        dec_strs(b, pos) == Some((v, pos + enc_strs(v).len())),
{
    let e1 = enc_u32(v.len() as u32);
    let e2 = enc_str_list(v);
    assert(enc_strs(v) == e1 + e2);
    lemma_subrange_split(b, pos, e1, e2);
    lemma_dec_u32_enc(b, pos, v.len() as u32);
    lemma_dec_str_list_enc(b, pos + 4, v);
    assert((v.len() as u32) as nat == v.len());
}

#[verifier::rlimit(50)]
proof fn lemma_dec_field_enc(b: Seq<u8>, pos: int, f: FieldView)
    requires
        0 <= pos,
        fits_field(f),
        pos + enc_field(f).len() <= b.len(),
        b.subrange(pos, pos + enc_field(f).len()) == enc_field(f),
    ensures
        dec_field(b, pos) == Some((f, pos + enc_field(f).len())),
{
    let e1 = enc_opt_str(f.ident);
    let e2 = enc_str(f.explanation.body);
    let e3 = enc_strs(f.explanation.complements);
    let e4 = enc_strs(f.examples);
    let p1 = pos + e1.len();
    let p2 = p1 + e2.len();
    let p3 = p2 + e3.len();
    assert(enc_field(f) =~= e1 + (e2 + (e3 + e4)));
    lemma_subrange_split(b, pos, e1, e2 + (e3 + e4));
    assert(b.subrange(p1, p1 + e2.len() + (e3 + e4).len()) =~= e2 + (e3 + e4));
    lemma_subrange_split(b, p1, e2, e3 + e4);
    assert(b.subrange(p2, p2 + e3.len() + e4.len()) =~= e3 + e4);
    lemma_subrange_split(b, p2, e3, e4);
    lemma_dec_opt_str_enc(b, pos, f.ident);
    lemma_dec_str_enc(b, p1, f.explanation.body);
    lemma_dec_strs_enc(b, p2, f.explanation.complements);
    lemma_dec_strs_enc(b, p3, f.examples);
    assert(FieldView {
        ident: f.ident,
        explanation: ExplanationView {
            body: f.explanation.body,
            complements: f.explanation.complements,
        },
        examples: f.examples,
    } == f);
}

proof fn lemma_dec_field_list_enc(b: Seq<u8>, pos: int, fs: Seq<FieldView>)
    requires
        0 <= pos,
        forall|i: int| 0 <= i < fs.len() ==> fits_field(#[trigger] fs[i]),
        pos + enc_field_list(fs).len() <= b.len(),
        b.subrange(pos, pos + enc_field_list(fs).len()) == enc_field_list(fs),
    ensures
        dec_field_list(b, pos, fs.len()) == Some((fs, pos + enc_field_list(fs).len())),
    decreases fs.len(),
{
    if fs.len() == 0 {
        assert(fs =~= Seq::<FieldView>::empty());
    } else {
        let e0 = enc_field(fs[0]);
        let rest = enc_field_list(fs.skip(1));
        assert(enc_field_list(fs) == e0 + rest);
        lemma_subrange_split(b, pos, e0, rest);
        lemma_dec_field_enc(b, pos, fs[0]);
        lemma_dec_field_list_enc(b, pos + e0.len(), fs.skip(1));
        assert(seq![fs[0]] + fs.skip(1) =~= fs);
    }
}

proof fn lemma_dec_fields_enc(b: Seq<u8>, pos: int, fs: Seq<FieldView>)
    requires
        0 <= pos,
        fs.len() <= u32::MAX,
        forall|i: int| 0 <= i < fs.len() ==> fits_field(#[trigger] fs[i]),
        pos + enc_fields(fs).len() <= b.len(),
        b.subrange(pos, pos + enc_fields(fs).len()) == enc_fields(fs),
    ensures
        dec_fields(b, pos) == Some((fs, pos + enc_fields(fs).len())),
{
    let e1 = enc_u32(fs.len() as u32);
    let e2 = enc_field_list(fs);
    assert(enc_fields(fs) == e1 + e2);
    lemma_subrange_split(b, pos, e1, e2);
    lemma_dec_u32_enc(b, pos, fs.len() as u32);
    lemma_dec_field_list_enc(b, pos + 4, fs);
    assert((fs.len() as u32) as nat == fs.len());
}

#[verifier::rlimit(50)]
proof fn lemma_dec_pairs_enc(b: Seq<u8>, pos: int, ks: Seq<Seq<char>>, gs: Seq<Seq<FieldView>>)
    requires
        0 <= pos,
        ks.len() == gs.len(),
        forall|i: int| 0 <= i < ks.len() ==> fits_str(#[trigger] ks[i]),
        forall|i: int|
            0 <= i < gs.len() ==> (#[trigger] gs[i]).len() <= u32::MAX && forall|j: int|
                0 <= j < gs[i].len() ==> fits_field(#[trigger] gs[i][j]),
        pos + enc_pairs(ks, gs).len() <= b.len(),
        b.subrange(pos, pos + enc_pairs(ks, gs).len()) == enc_pairs(ks, gs),
    ensures
        dec_pairs(b, pos, ks.len()) == Some(((ks, gs), pos + enc_pairs(ks, gs).len())),
    decreases ks.len(),
{
    if ks.len() == 0 {
        assert(ks =~= Seq::<Seq<char>>::empty());
        assert(gs =~= Seq::<Seq<FieldView>>::empty());
    } else {
        let e0 = enc_str(ks[0]);
        let e1 = enc_fields(gs[0]);
        let rest = enc_pairs(ks.skip(1), gs.skip(1));
        let p1 = pos + e0.len();
        let p2 = p1 + e1.len();
        assert(enc_pairs(ks, gs) =~= e0 + (e1 + rest));
        lemma_subrange_split(b, pos, e0, e1 + rest);
        assert(b.subrange(p1, p1 + e1.len() + rest.len()) =~= e1 + rest);
        lemma_subrange_split(b, p1, e1, rest);
        lemma_dec_str_enc(b, pos, ks[0]);
        lemma_dec_fields_enc(b, p1, gs[0]);
        lemma_dec_pairs_enc(b, p2, ks.skip(1), gs.skip(1));
        assert(seq![ks[0]] + ks.skip(1) =~= ks);
        assert(seq![gs[0]] + gs.skip(1) =~= gs);
    }
}

/// The round-trip law of the cache encoding: decoding the encoding of any
/// well-formed dictionary that fits the format's size bounds yields
/// exactly that dictionary — the same keys in the same order, and the
/// same fields for every key.
#[verifier::rlimit(50)]
pub proof fn lemma_round_trip(dv: DictionaryView)
    requires
        crate::dict::wf_view(dv),
        fits_dict(dv),
    ensures
        spec_decode(enc_dict(dv)) == Some(dv),
{
    let b = enc_dict(dv);
    let e1 = enc_u32(dv.keys.len() as u32);
    let e2 = enc_pairs(dv.keys, dv.field_groups);
    assert(b == e1 + e2);
    assert(b.subrange(0, b.len() as int) =~= b);
    lemma_subrange_split(b, 0, e1, e2);
    lemma_dec_u32_enc(b, 0, dv.keys.len() as u32);
    lemma_dec_pairs_enc(b, 4, dv.keys, dv.field_groups);
    assert((dv.keys.len() as u32) as nat == dv.keys.len());
    assert(DictionaryView { keys: dv.keys, field_groups: dv.field_groups } == dv);
}

// ---------------------------------------------------------------------
// Executable encoder.
// ---------------------------------------------------------------------

fn encode_u32(x: u32, out: &mut Vec<u8>)
    ensures
        final(out)@ == old(out)@ + enc_u32(x),
{
    out.push((x % 256) as u8);
    out.push(((x / 256) % 256) as u8);
    out.push(((x / 65536) % 256) as u8);
    out.push(((x / 16777216) % 256) as u8);
    proof {
        assert(out@ =~= old(out)@ + enc_u32(x));
    }
}

fn encode_chars_from(s: &Vec<char>, i: usize, out: &mut Vec<u8>)
    requires
        i <= s@.len(),
    ensures
        final(out)@ == old(out)@ + enc_chars(s@.skip(i as int)),
    decreases s@.len() - i,
{
    if i == s.len() {
        proof {
            assert(s@.skip(i as int) =~= Seq::<char>::empty());
            assert(out@ =~= out@ + enc_chars(s@.skip(i as int)));
        }
        return ;
    }
    let c = s[i];
    encode_u32(c as u32, out);
    encode_chars_from(s, i + 1, out);
    proof {
        let t = s@.skip(i as int);
        assert(t[0] == s@[i as int]);
        assert(t.skip(1) =~= s@.skip(i + 1));
        assert(out@ =~= old(out)@ + enc_chars(t));
    }
}

fn encode_str(s: &String, out: &mut Vec<u8>)
    requires
        fits_str(s@),
    ensures
        final(out)@ == old(out)@ + enc_str(s@),
{
    let cv = crate::text::chars_of(s.as_str());
    encode_u32(cv.len() as u32, out);
    encode_chars_from(&cv, 0, out);
    proof {
        assert(cv@.skip(0) =~= s@);
        assert(out@ =~= old(out)@ + enc_str(s@));
    }
}

fn encode_opt_str(o: &Option<String>, out: &mut Vec<u8>)
    requires
        o matches Some(s) ==> fits_str(s@),
    ensures
        final(out)@ == old(out)@ + enc_opt_str(o.deep_view()),
{
    match o {
        Option::None => {
            out.push(0u8);
            proof {
                assert(out@ =~= old(out)@ + enc_opt_str(o.deep_view()));
            }
        },
        Option::Some(s) => {
            out.push(1u8);
            let ghost mid = out@;
            encode_str(s, out);
            proof {
                assert(mid =~= old(out)@ + seq![1u8]);
                assert(out@ =~= old(out)@ + enc_opt_str(o.deep_view()));
            }
        },
    }
}

fn encode_strs_from(v: &Vec<String>, i: usize, out: &mut Vec<u8>)
    requires
        i <= v@.len(),
        forall|k: int| 0 <= k < v@.len() ==> fits_str((#[trigger] v.deep_view()[k])),
    ensures
        final(out)@ == old(out)@ + enc_str_list(v.deep_view().skip(i as int)),
    decreases v@.len() - i,
{
    if i == v.len() {
        proof {
            assert(v.deep_view().skip(i as int) =~= Seq::<Seq<char>>::empty());
            assert(out@ =~= out@ + enc_str_list(v.deep_view().skip(i as int)));
        }
        return ;
    }
    proof {
        assert(v.deep_view()[i as int] == v@[i as int]@);
    }
    encode_str(&v[i], out);
    encode_strs_from(v, i + 1, out);
    proof {
        let t = v.deep_view().skip(i as int);
        assert(t[0] == v.deep_view()[i as int]);
        assert(t.skip(1) =~= v.deep_view().skip(i + 1));
        assert(out@ =~= old(out)@ + enc_str_list(t));
    }
}

fn encode_strs(v: &Vec<String>, out: &mut Vec<u8>)
    requires
        v@.len() <= u32::MAX,
        forall|k: int| 0 <= k < v@.len() ==> fits_str((#[trigger] v.deep_view()[k])),
    ensures
        final(out)@ == old(out)@ + enc_strs(v.deep_view()),
{
    encode_u32(v.len() as u32, out);
    encode_strs_from(v, 0, out);
    proof {
        assert(v.deep_view().skip(0) =~= v.deep_view());
        assert(out@ =~= old(out)@ + enc_strs(v.deep_view()));
    }
}

fn encode_field(f: &Field, out: &mut Vec<u8>)
    requires
        fits_field(f@),
    ensures
        final(out)@ == old(out)@ + enc_field(f@),
{
    encode_opt_str(&f.ident, out);
    encode_str(&f.explanation.body, out);
    encode_strs(&f.explanation.complements, out);
    encode_strs(&f.examples, out);
    proof {
        assert(out@ =~= old(out)@ + enc_field(f@));
    }
}

fn encode_fields_from(fs: &Vec<Field>, i: usize, out: &mut Vec<u8>)
    requires
        i <= fs@.len(),
        forall|k: int| 0 <= k < fs@.len() ==> fits_field((#[trigger] fs.deep_view()[k])),
    ensures
        final(out)@ == old(out)@ + enc_field_list(fs.deep_view().skip(i as int)),
    decreases fs@.len() - i,
{
    if i == fs.len() {
        proof {
            assert(fs.deep_view().skip(i as int) =~= Seq::<FieldView>::empty());
            assert(out@ =~= out@ + enc_field_list(fs.deep_view().skip(i as int)));
        }
        return ;
    }
    proof {
        assert(fs.deep_view()[i as int] == fs@[i as int]@);
    }
    encode_field(&fs[i], out);
    encode_fields_from(fs, i + 1, out);
    proof {
        let t = fs.deep_view().skip(i as int);
        assert(t[0] == fs.deep_view()[i as int]);
        assert(t.skip(1) =~= fs.deep_view().skip(i + 1));
        assert(out@ =~= old(out)@ + enc_field_list(t));
    }
}

fn encode_fields(fs: &Vec<Field>, out: &mut Vec<u8>)
    requires
        fs@.len() <= u32::MAX,
        forall|k: int| 0 <= k < fs@.len() ==> fits_field((#[trigger] fs.deep_view()[k])),
    ensures
        final(out)@ == old(out)@ + enc_fields(fs.deep_view()),
{
    encode_u32(fs.len() as u32, out);
    encode_fields_from(fs, 0, out);
    proof {
        assert(fs.deep_view().skip(0) =~= fs.deep_view());
        assert(out@ =~= old(out)@ + enc_fields(fs.deep_view()));
    }
}

fn encode_pairs_from(d: &Dictionary, i: usize, out: &mut Vec<u8>)
    requires
        d.wf(),
        fits_dict(d@),
        i <= d@.keys.len(),
    ensures
        final(out)@ == old(out)@ + enc_pairs(
            d@.keys.skip(i as int),
            d@.field_groups.skip(i as int),
        ),
    decreases d@.keys.len() - i,
{
    let n = d.len();
    if i == n {
        proof {
            assert(d@.keys.skip(i as int) =~= Seq::<Seq<char>>::empty());
            assert(out@ =~= out@ + enc_pairs(
                d@.keys.skip(i as int),
                d@.field_groups.skip(i as int),
            ));
        }
        return ;
    }
    encode_str(d.key_at(i), out);
    encode_fields(d.fields_at(i), out);
    encode_pairs_from(d, i + 1, out);
    proof {
        let ks = d@.keys.skip(i as int);
        let gs = d@.field_groups.skip(i as int);
        assert(ks[0] == d@.keys[i as int]);
        assert(gs[0] == d@.field_groups[i as int]);
        assert(ks.skip(1) =~= d@.keys.skip(i + 1));
        assert(gs.skip(1) =~= d@.field_groups.skip(i + 1));
        assert(out@ =~= old(out)@ + enc_pairs(ks, gs));
    }
}

/// Encodes a built dictionary as the cache blob.
pub fn encode(d: &Dictionary) -> (out: Vec<u8>)
    requires
        d.wf(),
        fits_dict(d@),
    ensures
        out@ == enc_dict(d@),
{
    let mut out: Vec<u8> = Vec::new();
    encode_u32(d.len() as u32, &mut out);
    encode_pairs_from(d, 0, &mut out);
    proof {
        assert(d@.keys.skip(0) =~= d@.keys);
        assert(d@.field_groups.skip(0) =~= d@.field_groups);
        assert(out@ =~= enc_dict(d@));
    }
    out
}

// ---------------------------------------------------------------------
// Executable decoder.
// ---------------------------------------------------------------------

/// Relies on char::from_u32: a Unicode scalar value converts to the
/// character with that value; a surrogate or out-of-range value gives
/// nothing.
#[verifier::external_body]
fn char_from_u32(u: u32) -> (r: Option<char>)
    ensures
        r matches Some(c) ==> c as u32 == u,
        r is None ==> !is_scalar(u),
{
    char::from_u32(u)
}

fn decode_u32(b: &Vec<u8>, pos: usize) -> (r: Option<(u32, usize)>)
    requires
        pos <= b@.len(),
    ensures
        r matches Some(y) ==> dec_u32(b@, pos as int) == Some((y.0, y.1 as int)) && y.1
            <= b@.len(),
        r is None ==> dec_u32(b@, pos as int) is None,
{
    if b.len() - pos < 4 {
        return None;
    }
    let x: u32 = (b[pos] as u32) + 256 * (b[pos + 1] as u32) + 65536 * (b[pos + 2] as u32)
        + 16777216 * (b[pos + 3] as u32);
    Some((x, pos + 4))
}

fn decode_char(b: &Vec<u8>, pos: usize) -> (r: Option<(char, usize)>)
    requires
        pos <= b@.len(),
    ensures
        r matches Some(y) ==> dec_char(b@, pos as int) == Some((y.0, y.1 as int)) && y.1
            <= b@.len(),
        r is None ==> dec_char(b@, pos as int) is None,
{
    match decode_u32(b, pos) {
        Option::None => None,
        Option::Some((u, p)) => match char_from_u32(u) {
            Option::None => None,
            Option::Some(c) => {
                proof {
                    char_is_scalar(c);
                    char_u32_cast(c, u);
                }
                Some((c, p))
            },
        },
    }
}

fn decode_chars(b: &Vec<u8>, pos: usize, n: u32) -> (r: Option<(Vec<char>, usize)>)
    requires
        pos <= b@.len(),
    ensures
        r matches Some(y) ==> dec_chars(b@, pos as int, n as nat) == Some((y.0@, y.1 as int))
            && y.1 <= b@.len(),
        r is None ==> dec_chars(b@, pos as int, n as nat) is None,
    decreases n,
{
    if n == 0 {
        let v: Vec<char> = Vec::new();
        proof {
            assert(v@ =~= Seq::<char>::empty());
        }
        return Some((v, pos));
    }
    match decode_char(b, pos) {
        Option::None => None,
        Option::Some((c, p1)) => match decode_chars(b, p1, n - 1) {
            Option::None => None,
            Option::Some((mut s, p2)) => {
                let ghost sv = s@;
                s.insert(0, c);
                proof {
                    assert(s@ =~= seq![c] + sv);
                }
                Some((s, p2))
            },
        },
    }
}

fn decode_str(b: &Vec<u8>, pos: usize) -> (r: Option<(String, usize)>)
    requires
        pos <= b@.len(),
    ensures
        r matches Some(y) ==> dec_str(b@, pos as int) == Some((y.0@, y.1 as int)) && y.1
            <= b@.len(),
        r is None ==> dec_str(b@, pos as int) is None,
{
    match decode_u32(b, pos) {
        Option::None => None,
        Option::Some((n, p1)) => match decode_chars(b, p1, n) {
            Option::None => None,
            Option::Some((cv, p2)) => Some((string_from_chars(&cv), p2)),
        },
    }
}

fn decode_opt_str(b: &Vec<u8>, pos: usize) -> (r: Option<(Option<String>, usize)>)
    requires
        pos <= b@.len(),
    ensures
        r matches Some(y) ==> dec_opt_str(b@, pos as int) == Some(
            (y.0.deep_view(), y.1 as int),
        ) && y.1 <= b@.len(),
        r is None ==> dec_opt_str(b@, pos as int) is None,
{
    if b.len() - pos < 1 {
        return None;
    }
    let tag = b[pos];
    if tag == 0 {
        Some((None, pos + 1))
    } else if tag == 1 {
        match decode_str(b, pos + 1) {
            Option::None => None,
            Option::Some((s, p)) => Some((Some(s), p)),
        }
    } else {
        None
    }
}

fn decode_strs(b: &Vec<u8>, pos: usize) -> (r: Option<(Vec<String>, usize)>)
    requires
        pos <= b@.len(),
    ensures
        r matches Some(y) ==> dec_strs(b@, pos as int) == Some(
            (y.0.deep_view(), y.1 as int),
        ) && y.1 <= b@.len(),
        r is None ==> dec_strs(b@, pos as int) is None,
{
    match decode_u32(b, pos) {
        Option::None => None,
        Option::Some((n, p1)) => decode_str_list(b, p1, n),
    }
}

fn decode_str_list(b: &Vec<u8>, pos: usize, n: u32) -> (r: Option<(Vec<String>, usize)>)
    requires
        pos <= b@.len(),
    ensures
        r matches Some(y) ==> dec_str_list(b@, pos as int, n as nat) == Some(
            (y.0.deep_view(), y.1 as int),
        ) && y.1 <= b@.len(),
        r is None ==> dec_str_list(b@, pos as int, n as nat) is None,
    decreases n,
{
    if n == 0 {
        let v: Vec<String> = Vec::new();
        proof {
            assert(v.deep_view() =~= Seq::<Seq<char>>::empty());
        }
        return Some((v, pos));
    }
    match decode_str(b, pos) {
        Option::None => None,
        Option::Some((s, p1)) => match decode_str_list(b, p1, n - 1) {
            Option::None => None,
            Option::Some((mut v, p2)) => {
                let ghost vd = v.deep_view();
                let ghost sv = s@;
                v.insert(0, s);
                proof {
                    assert(v.deep_view() =~~= seq![sv] + vd);
                }
                Some((v, p2))
            },
        },
    }
}

fn decode_field(b: &Vec<u8>, pos: usize) -> (r: Option<(Field, usize)>)
    requires
        pos <= b@.len(),
    ensures
        r matches Some(y) ==> dec_field(b@, pos as int) == Some((y.0@, y.1 as int)) && y.1
            <= b@.len(),
        r is None ==> dec_field(b@, pos as int) is None,
{
    match decode_opt_str(b, pos) {
        Option::None => None,
        Option::Some((ident, p1)) => match decode_str(b, p1) {
            Option::None => None,
            Option::Some((body, p2)) => match decode_strs(b, p2) {
                Option::None => None,
                Option::Some((comps, p3)) => match decode_strs(b, p3) {
                    Option::None => None,
                    Option::Some((exs, p4)) => {
                        let f = Field {
                            ident,
                            explanation: Explanation { body, complements: comps },
                            examples: exs,
                        };
                        Some((f, p4))
                    },
                },
            },
        },
    }
}

fn decode_field_list(b: &Vec<u8>, pos: usize, n: u32) -> (r: Option<(Vec<Field>, usize)>)
    requires
        pos <= b@.len(),
    ensures
        r matches Some(y) ==> dec_field_list(b@, pos as int, n as nat) == Some(
            (y.0.deep_view(), y.1 as int),
        ) && y.1 <= b@.len(),
        r is None ==> dec_field_list(b@, pos as int, n as nat) is None,
    decreases n,
{
    if n == 0 {
        let v: Vec<Field> = Vec::new();
        proof {
            assert(v.deep_view() =~= Seq::<FieldView>::empty());
        }
        return Some((v, pos));
    }
    match decode_field(b, pos) {
        Option::None => None,
        Option::Some((f, p1)) => match decode_field_list(b, p1, n - 1) {
            Option::None => None,
            Option::Some((mut v, p2)) => {
                let ghost vd = v.deep_view();
                let ghost fv = f@;
                v.insert(0, f);
                proof {
                    assert(v.deep_view() =~~= seq![fv] + vd);
                }
                Some((v, p2))
            },
        },
    }
}

fn decode_fields(b: &Vec<u8>, pos: usize) -> (r: Option<(Vec<Field>, usize)>)
    requires
        pos <= b@.len(),
    ensures
        r matches Some(y) ==> dec_fields(b@, pos as int) == Some(
            (y.0.deep_view(), y.1 as int),
        ) && y.1 <= b@.len(),
        r is None ==> dec_fields(b@, pos as int) is None,
{
    match decode_u32(b, pos) {
        Option::None => None,
        Option::Some((n, p1)) => decode_field_list(b, p1, n),
    }
}

fn decode_pairs(b: &Vec<u8>, pos: usize, n: u32) -> (r: Option<
    ((Vec<String>, Vec<Vec<Field>>), usize),
>)
    requires
        pos <= b@.len(),
    ensures
        r matches Some(y) ==> dec_pairs(b@, pos as int, n as nat) == Some(
            (((y.0).0.deep_view(), (y.0).1.deep_view()), y.1 as int),
        ) && y.1 <= b@.len(),
        r is None ==> dec_pairs(b@, pos as int, n as nat) is None,
    decreases n,
{
    if n == 0 {
        let ks: Vec<String> = Vec::new();
        let gs: Vec<Vec<Field>> = Vec::new();
        proof {
            assert(ks.deep_view() =~= Seq::<Seq<char>>::empty());
            assert(gs.deep_view() =~= Seq::<Seq<FieldView>>::empty());
        }
        return Some(((ks, gs), pos));
    }
    match decode_str(b, pos) {
        Option::None => None,
        Option::Some((k, p1)) => match decode_fields(b, p1) {
            Option::None => None,
            Option::Some((fs, p2)) => match decode_pairs(b, p2, n - 1) {
                Option::None => None,
                Option::Some(((mut ks, mut gs), p3)) => {
                    let ghost kd = ks.deep_view();
                    let ghost gd = gs.deep_view();
                    let ghost kv = k@;
                    let ghost fd = fs.deep_view();
                    ks.insert(0, k);
                    gs.insert(0, fs);
                    proof {
                        assert(ks.deep_view() =~~= seq![kv] + kd);
                        assert(gs.deep_view() =~~= seq![fd] + gd);
                    }
                    Some(((ks, gs), p3))
                },
            },
        },
    }
}

/// Keys pairwise ordered when every adjacent pair is.
proof fn lemma_chain_lt(ks: Seq<Seq<char>>, i: int, j: int)
    requires
        forall|k: int| 0 <= k < ks.len() - 1 ==> lex_lt(#[trigger] ks[k], ks[k + 1]),
        0 <= i < j < ks.len(),
    ensures
        lex_lt(ks[i], ks[j]),
    decreases j - i,
{
    if j == i + 1 {
    } else {
        lemma_chain_lt(ks, i, j - 1);
        crate::text::lemma_lex_trans(ks[i], ks[j - 1], ks[j]);
    }
}

/// Checks the dictionary invariant on decoded parts.
fn wf_check(keys: &Vec<String>, groups: &Vec<Vec<Field>>) -> (r: bool)
    ensures
        r == crate::dict::wf_view(
            DictionaryView { keys: keys.deep_view(), field_groups: groups.deep_view() },
        ),
{
    let ghost dv = DictionaryView {
        keys: keys.deep_view(),
        field_groups: groups.deep_view(),
    };
    if keys.len() != groups.len() {
        return false;
    }
    let n = keys.len();
    let mut i: usize = 0;
    while i + 1 < n
        invariant
            n == keys@.len(),
            n == groups@.len(),
            i < n || i == 0,
            i <= n,
            forall|k: int| 0 <= k < i ==> lex_lt(
                #[trigger] keys.deep_view()[k],
                keys.deep_view()[k + 1],
            ),
        decreases n - i,
    {
        proof {
            assert(keys.deep_view()[i as int] == keys@[i as int]@);
            assert(keys.deep_view()[i + 1] == keys@[i + 1]@);
        }
        if !str_lt(keys[i].as_str(), keys[i + 1].as_str()) {
            proof {
                assert(!sorted_strict(keys.deep_view())) by {
                    if sorted_strict(keys.deep_view()) {
                        assert(lex_lt(keys.deep_view()[i as int], keys.deep_view()[i + 1]));
                    }
                }
            }
            return false;
        }
        i = i + 1;
    }
    proof {
        assert forall|a: int, j: int| 0 <= a < j < dv.keys.len() implies lex_lt(
            dv.keys[a],
            dv.keys[j],
        ) by {
            lemma_chain_lt(dv.keys, a, j);
        }
        assert(sorted_strict(dv.keys));
    }
    let mut j: usize = 0;
    while j < n
        invariant
            n == groups@.len(),
            j <= n,
            forall|k: int| 0 <= k < j ==> (#[trigger] groups.deep_view()[k]).len() > 0,
        decreases n - j,
    {
        proof {
            assert(groups.deep_view()[j as int] == groups@[j as int].deep_view());
        }
        if groups[j].len() == 0 {
            proof {
                assert(groups.deep_view()[j as int].len() == 0);
            }
            return false;
        }
        j = j + 1;
    }
    true
}

/// Decodes a cache blob. The result is exactly what the byte-level
/// decoder accepts: a whole buffer holding one well-formed dictionary;
/// anything else — truncated, trailing garbage, bad scalar values, keys
/// out of order — is refused.
pub fn decode(bytes: &Vec<u8>) -> (r: Option<Dictionary>)
    ensures
        r matches Some(d) ==> spec_decode(bytes@) == Some(d@) && d.wf(),
        r is None ==> spec_decode(bytes@) is None,
{
    match decode_u32(bytes, 0) {
        Option::None => None,
        Option::Some((n, p1)) => match decode_pairs(bytes, p1, n) {
            Option::None => None,
            Option::Some(((keys, groups), p2)) => {
                if p2 != bytes.len() {
                    return None;
                }
                if !wf_check(&keys, &groups) {
                    return None;
                }
                let ghost dv = DictionaryView {
                    keys: keys.deep_view(),
                    field_groups: groups.deep_view(),
                };
                let d = new_dictionary(keys, groups);
                proof {
                    assert(d@ == dv);
                    assert(spec_decode(bytes@) == Some(dv));
                }
                Some(d)
            },
        },
    }
}

} // verus!
