//! The corpus parser. Each non-blank corpus line encodes one headword and
//! one sense:
//!
//! - the line opens with the entry marker, then the head segment up to the
//!   first ` : ` separator; inside the head segment an optional trailing
//!   ` {tag}` carries the sense tag;
//! - after the separator comes the gloss body; occurrences of the
//!   complement marker split off supplementary notes;
//! - the first example marker (entry marker followed by the middle dot)
//!   ends the gloss part, and each further example marker starts another
//!   example sentence.
//!
//! Markers found past these positions are literal text. A line whose
//! headword or gloss body is empty after trimming is malformed; it is
//! counted and skipped, and parsing fails only if no line at all was
//! well-formed.

use vstd::prelude::*;

use crate::dict::{Explanation, ExplanationView, Field, FieldView};
use crate::text::{
    find_from, first_match_from, lemma_fmf_skip, match_at, split_by, split_vec, string_from_chars,
    sub_vec, trim_spaces, trim_vec,
};

verus! {

/// Opens every entry line.
pub const MARK_ENTRY: char = '\u{25a0}';

/// Introduces a supplementary note inside the gloss part.
pub const MARK_COMP: char = '\u{25c6}';

/// Preceded by the entry marker, introduces an example sentence.
pub const MARK_EX_DOT: char = '\u{30fb}';

/// The head/gloss separator.
pub open spec fn sep_seq() -> Seq<char> {
    seq![' ', ':', ' ']
}

/// The two-character example marker.
pub open spec fn ex_marker() -> Seq<char> {
    seq![MARK_ENTRY, MARK_EX_DOT]
}

/// The tag opener inside the head segment.
pub open spec fn tag_open() -> Seq<char> {
    seq![' ', '{']
}

/// A line of nothing but spaces (or nothing at all).
pub open spec fn spec_is_blank(line: Seq<char>) -> bool {
    forall|i: int| 0 <= i < line.len() ==> line[i] == ' '
}

/// Splits the head segment into the raw headword and the optional tag:
/// the tag sits between the first ` {` and a closing `}` that ends the
/// segment.
pub open spec fn spec_split_ident(head: Seq<char>) -> (Seq<char>, Option<Seq<char>>) {
    match first_match_from(head, tag_open(), 0) {
        Option::None => (head, None),
        Option::Some(t) => {
            if head.len() > 0 && head.last() == '}' && t + 2 <= head.len() - 1 {
                (head.take(t), Some(trim_spaces(head.subrange(t + 2, head.len() - 1))))
            } else {
                (head, None)
            }
        },
    }
}

/// The example sentences of a part that begins with the example marker:
/// each marker starts one sentence, trimmed, running to the next marker.
pub open spec fn spec_example_list(s: Seq<char>) -> Seq<Seq<char>>
    decreases s.len() via spec_example_list_decreases
{
    if s.len() < 2 {
        Seq::empty()
    } else {
        let t = s.skip(2);
        match first_match_from(t, ex_marker(), 0) {
            Option::None => seq![trim_spaces(t)],
            Option::Some(x) => seq![trim_spaces(t.take(x))] + spec_example_list(t.skip(x)),
        }
    }
}

#[via_fn]
proof fn spec_example_list_decreases(s: Seq<char>) {
    if s.len() >= 2 {
        crate::text::lemma_first_match_from(s.skip(2), ex_marker(), 0);
    }
}

/// Splits the part after the separator into the gloss part and the
/// example sentences.
pub open spec fn spec_split_examples(rest: Seq<char>) -> (Seq<char>, Seq<Seq<char>>) {
    match first_match_from(rest, ex_marker(), 0) {
        Option::None => (rest, Seq::empty()),
        Option::Some(x) => (rest.take(x), spec_example_list(rest.skip(x))),
    }
}

/// The trimmed complements: every gloss-part segment but the first.
pub open spec fn spec_complements(segs: Seq<Seq<char>>) -> Seq<Seq<char>> {
    segs.skip(1).map_values(|x: Seq<char>| trim_spaces(x))
}

/// Parses one line: the headword and the sense it carries, or nothing for
/// a malformed line.
pub open spec fn spec_parse_line(line: Seq<char>) -> Option<(Seq<char>, FieldView)> {
    if line.len() == 0 || line[0] != MARK_ENTRY {
        None
    } else {
        let tail = line.skip(1);
        match first_match_from(tail, sep_seq(), 0) {
            Option::None => None,
            Option::Some(h) => {
                let head = tail.take(h);
                let rest = tail.skip(h + 3);
                let hw_id = spec_split_ident(head);
                let hw = trim_spaces(hw_id.0);
                if hw.len() == 0 {
                    None
                } else {
                    let pe = spec_split_examples(rest);
                    let segs = split_by(pe.0, MARK_COMP);
                    let body = trim_spaces(segs[0]);
                    if body.len() == 0 {
                        None
                    } else {
                        Some(
                            (
                                hw,
                                FieldView {
                                    ident: hw_id.1,
                                    explanation: ExplanationView {
                                        body,
                                        complements: spec_complements(segs),
                                    },
                                    examples: pe.1,
                                },
                            ),
                        )
                    }
                }
            },
        }
    }
}

/// The entries of the well-formed, non-blank lines, in line order.
pub open spec fn spec_entries(lines: Seq<Seq<char>>) -> Seq<(Seq<char>, FieldView)>
    decreases lines.len(),
{
    if lines.len() == 0 {
        Seq::empty()
    } else {
        let pre = spec_entries(lines.drop_last());
        let l = lines.last();
        if spec_is_blank(l) {
            pre
        } else {
            match spec_parse_line(l) {
                Option::Some(e) => pre.push(e),
                Option::None => pre,
            }
        }
    }
}

/// How many non-blank lines are malformed.
pub open spec fn spec_bad_count(lines: Seq<Seq<char>>) -> nat
    decreases lines.len(),
{
    if lines.len() == 0 {
        0
    } else {
        spec_bad_count(lines.drop_last()) + if !spec_is_blank(lines.last())
            && spec_parse_line(lines.last()) is None {
            1nat
        } else {
            0nat
        }
    }
}

/// Parsing fails only when no line yields an entry.
#[derive(Debug, PartialEq, Eq, Structural)]
pub enum ParseError {
    NoValidEntries,
}

/// Nothing but spaces?
fn is_blank_vec(v: &Vec<char>) -> (r: bool)
    ensures
        r == spec_is_blank(v@),
{
    let n = v.len();
    let mut i: usize = 0;
    while i < n
        invariant
            n == v@.len(),
            i <= n,
            forall|k: int| 0 <= k < i ==> v@[k] == ' ',
        decreases n - i,
    {
        if v[i] != ' ' {
            return false;
        }
        i = i + 1;
    }
    true
}

/// Collects the example sentences of the part of `rest` from the marker
/// at `x0` on.
fn parse_examples(rest: &Vec<char>, x0: usize) -> (exs: Vec<String>)
    requires
        match_at(rest@, ex_marker(), x0 as int),
    ensures
        exs.deep_view() == spec_example_list(rest@.skip(x0 as int)),
{
    let exm: Vec<char> = vec![MARK_ENTRY, MARK_EX_DOT];
    let n = rest.len();
    let mut exs: Vec<String> = Vec::new();
    let ghost whole = spec_example_list(rest@.skip(x0 as int));
    let mut cur: usize = x0;
    proof {
        assert(exs.deep_view() + whole =~~= whole);
    }
    loop
        invariant
            exm@ == ex_marker(),
            n == rest@.len(),
            match_at(rest@, ex_marker(), cur as int),
            x0 <= cur,
            whole == spec_example_list(rest@.skip(x0 as int)),
            exs.deep_view() + spec_example_list(rest@.skip(cur as int)) == whole,
        decreases n - cur,
    {
        proof {
            assert(cur + 2 <= n);
        }
        let ghost s = rest@.skip(cur as int);
        let ghost t = s.skip(2);
        proof {
            assert(t =~= rest@.skip(cur + 2));
        }
        let nxt = find_from(rest, &exm, cur + 2);
        proof {
            lemma_fmf_skip(rest@, exm@, cur + 2, cur + 2);
        }
        let ghost old_ed = exs.deep_view();
        match nxt {
            Option::None => {
                let seg = trim_vec(&sub_vec(rest, cur + 2, n));
                proof {
                    assert(seg@ == trim_spaces(t));
                }
                exs.push(string_from_chars(&seg));
                proof {
                    assert(first_match_from(t, ex_marker(), 0) is None);
                    assert(spec_example_list(s) == seq![trim_spaces(t)]);
                    assert(exs.deep_view() =~~= old_ed + seq![trim_spaces(t)]);
                    assert(old_ed + seq![trim_spaces(t)] =~~= old_ed + spec_example_list(s));
                    assert(exs.deep_view() == whole);
                }
                return exs;
            },
            Option::Some(x) => {
                let seg = trim_vec(&sub_vec(rest, cur + 2, x));
                exs.push(string_from_chars(&seg));
                proof {
                    let xr = x - (cur + 2);
                    assert(first_match_from(t, ex_marker(), 0) == Some(xr));
                    assert(t.take(xr) =~= rest@.subrange(cur + 2, x as int));
                    assert(seg@ == trim_spaces(t.take(xr)));
                    assert(t.skip(xr) =~= rest@.skip(x as int));
                    assert(spec_example_list(s) == seq![trim_spaces(t.take(xr))]
                        + spec_example_list(rest@.skip(x as int)));
                    assert(exs.deep_view() =~~= old_ed + seq![trim_spaces(t.take(xr))]);
                    assert(exs.deep_view() + spec_example_list(rest@.skip(x as int)) =~~= old_ed
                        + spec_example_list(s));
                    crate::text::lemma_first_match_from(rest@, exm@, (cur + 2) as int);
                    assert(match_at(rest@, ex_marker(), x as int));
                }
                cur = x;
            },
        }
    }
}

/// Parses one line into its headword and field, or nothing for a blank or
/// malformed line; the outcome is exactly what the line grammar gives.
pub fn parse_line(line: &Vec<char>) -> (r: Option<(String, Field)>)
    ensures
        r matches Some(e) ==> spec_parse_line(line@) == Some(e.deep_view()),
        r is None ==> spec_parse_line(line@) is None,
{
    let n = line.len();
    if n == 0 {
        return None;
    }
    if line[0] != MARK_ENTRY {
        return None;
    }
    let tail = sub_vec(line, 1, n);
    proof {
        assert(tail@ =~= line@.skip(1));
    }
    let sep: Vec<char> = vec![' ', ':', ' '];
    proof {
        assert(sep@ =~= sep_seq());
    }
    let h = match find_from(&tail, &sep, 0) {
        Option::Some(h) => h,
        Option::None => {
            return None;
        },
    };
    let head = sub_vec(&tail, 0, h);
    let rest = sub_vec(&tail, h + 3, tail.len());
    proof {
        assert(head@ =~= tail@.take(h as int));
        assert(rest@ =~= tail@.skip(h + 3));
    }
    // Optional tag at the end of the head segment.
    let ob: Vec<char> = vec![' ', '{'];
    proof {
        assert(ob@ =~= tag_open());
    }
    let ghost spec_hw_id = spec_split_ident(head@);
    let hlen = head.len();
    let (hw_raw, ident): (Vec<char>, Option<String>) = match find_from(&head, &ob, 0) {
        Option::Some(t) if hlen > 0 && head[hlen - 1] == '}' && t + 2 <= hlen - 1 => {
            let inner = trim_vec(&sub_vec(&head, t + 2, hlen - 1));
            proof {
                assert(inner@ == trim_spaces(head@.subrange(t + 2, hlen - 1)));
            }
            let hw_raw = sub_vec(&head, 0, t);
            proof {
                assert(hw_raw@ =~= head@.take(t as int));
            }
            (hw_raw, Some(string_from_chars(&inner)))
        },
        _ => (head, None),
    };
    proof {
        assert(hw_raw@ == spec_hw_id.0);
        assert(ident.deep_view() == spec_hw_id.1);
    }
    let hwv = trim_vec(&hw_raw);
    if hwv.len() == 0 {
        return None;
    }
    let headword = string_from_chars(&hwv);
    // Examples, then complements out of the gloss part.
    let exm: Vec<char> = vec![MARK_ENTRY, MARK_EX_DOT];
    proof {
        assert(exm@ =~= ex_marker());
    }
    let ghost spec_pe = spec_split_examples(rest@);
    let (pre, examples): (Vec<char>, Vec<String>) = match find_from(&rest, &exm, 0) {
        Option::None => (rest, Vec::new()),
        Option::Some(x0) => {
            proof {
                crate::text::lemma_first_match_from(rest@, exm@, 0);
            }
            let pre = sub_vec(&rest, 0, x0);
            proof {
                assert(pre@ =~= rest@.take(x0 as int));
            }
            let exs = parse_examples(&rest, x0);
            (pre, exs)
        },
    };
    proof {
        assert(pre@ == spec_pe.0);
        assert(examples.deep_view() =~~= spec_pe.1);
    }
    let segs = split_vec(&pre, MARK_COMP);
    let ghost sspec = split_by(pre@, MARK_COMP);
    proof {
        assert(segs.deep_view() == sspec);
        assert(sspec.len() >= 1);
        assert(segs@.len() == sspec.len());
        assert(segs.deep_view()[0] == segs@[0]@);
    }
    let body_t = trim_vec(&segs[0]);
    if body_t.len() == 0 {
        return None;
    }
    let body = string_from_chars(&body_t);
    let mut comps: Vec<String> = Vec::new();
    let mut ci: usize = 1;
    while ci < segs.len()
        invariant
            segs.deep_view() == sspec,
            segs@.len() == sspec.len(),
            1 <= ci <= sspec.len(),
            comps.deep_view() =~= spec_complements(sspec).take(ci - 1),
        decreases segs@.len() - ci,
    {
        let ct = trim_vec(&segs[ci]);
        proof {
            assert(segs.deep_view()[ci as int] == segs@[ci as int]@);
            assert(sspec.skip(1)[ci - 1] == sspec[ci as int]);
            assert(spec_complements(sspec)[ci - 1] == trim_spaces(sspec[ci as int]));
        }
        let ghost old_cd = comps.deep_view();
        comps.push(string_from_chars(&ct));
        proof {
            let sc = spec_complements(sspec);
            assert(comps.deep_view() =~~= old_cd.push(trim_spaces(sspec[ci as int])));
            assert forall|k: int| 0 <= k < ci implies comps.deep_view()[k] == sc.take(
                ci as int,
            )[k] by {
                if k < ci - 1 {
                    assert(comps.deep_view()[k] == old_cd[k]);
                    assert(old_cd[k] == sc.take(ci - 1)[k]);
                } else {
                    assert(comps.deep_view()[k] == trim_spaces(sspec[ci as int]));
                    assert(sc.take(ci as int)[k] == sc[ci - 1]);
                }
            }
            assert(comps.deep_view() =~= sc.take(ci as int));
        }
        ci = ci + 1;
    }
    proof {
        assert(spec_complements(sspec).take(sspec.len() - 1) =~= spec_complements(sspec));
    }
    let field = Field {
        ident,
        explanation: Explanation { body, complements: comps },
        examples,
    };
    let r = Some((headword, field));
    proof {
        let e = (headword, field);
        assert(e.deep_view().0 == trim_spaces(spec_hw_id.0));
        assert(e.deep_view().1 == FieldView {
            ident: spec_hw_id.1,
            explanation: ExplanationView {
                body: trim_spaces(sspec[0]),
                complements: spec_complements(sspec),
            },
            examples: spec_pe.1,
        });
        assert(spec_parse_line(line@) == Some(e.deep_view()));
    }
    r
}

/// Parses the whole corpus: the entries of all well-formed lines in order
/// and the count of malformed lines; fails exactly when no line is
/// well-formed.
pub fn parse(text: &str) -> (r: Result<(Vec<(String, Field)>, usize), ParseError>)
    ensures
        r matches Ok(out) ==> {
            &&& out.0.deep_view() == spec_entries(split_by(text@, '\n'))
            &&& out.0@.len() > 0
            &&& out.1 == spec_bad_count(split_by(text@, '\n'))
        },
        r is Err <==> spec_entries(split_by(text@, '\n')).len() == 0,
        r matches Err(e) ==> e == ParseError::NoValidEntries,
{
    let v = crate::text::chars_of(text);
    let lines = split_vec(&v, '\n');
    let ghost ld = split_by(text@, '\n');
    proof {
        assert(lines.deep_view() == ld);
    }
    let n = lines.len();
    let mut entries: Vec<(String, Field)> = Vec::new();
    let mut bad: usize = 0;
    let mut i: usize = 0;
    while i < n
        invariant
            lines.deep_view() == ld,
            n == lines@.len(),
            n == ld.len(),
            i <= n,
            bad <= i,
            entries.deep_view() == spec_entries(ld.take(i as int)),
            bad == spec_bad_count(ld.take(i as int)),
        decreases n - i,
    {
        let ghost pref = ld.take(i as int);
        let ghost prefn = ld.take(i + 1);
        proof {
            assert(prefn.drop_last() =~= pref);
            assert(prefn.last() == ld[i as int]);
            assert(lines.deep_view()[i as int] == lines@[i as int]@);
        }
        let line = &lines[i];
        if !is_blank_vec(line) {
            match parse_line(line) {
                Option::Some(e) => {
                    let ghost old_ed = entries.deep_view();
                    let ghost ev = e.deep_view();
                    entries.push(e);
                    proof {
                        assert(entries.deep_view() =~~= old_ed.push(ev));
                    }
                },
                Option::None => {
                    bad = bad + 1;
                },
            }
        }
        i = i + 1;
    }
    proof {
        assert(ld.take(n as int) =~= ld);
    }
    if entries.len() == 0 {
        proof {
            assert(entries.deep_view().len() == 0);
        }
        Err(ParseError::NoValidEntries)
    } else {
        Ok((entries, bad))
    }
}

} // verus!
