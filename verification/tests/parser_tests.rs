use eijiro::builder::{build, BuildError};
use eijiro::parse::{parse, ParseError};

#[test]
fn well_formed_line_gives_one_entry() {
    let out = parse("\u{25a0}cat {n} : feline animal").unwrap();
    let (entries, skipped) = out;
    assert_eq!(entries.len(), 1);
    assert_eq!(skipped, 0);
    assert_eq!(entries[0].0, "cat");
    let f = &entries[0].1;
    assert_eq!(f.ident.as_deref(), Some("n"));
    assert_eq!(f.explanation.body, "feline animal");
    assert!(f.explanation.complements.is_empty());
    assert!(f.examples.is_empty());
}

#[test]
fn line_without_tag_has_no_ident() {
    let (entries, _) = parse("\u{25a0}catalog : a list of items").unwrap();
    assert_eq!(entries.len(), 1);
    assert_eq!(entries[0].0, "catalog");
    assert_eq!(entries[0].1.ident, None);
    assert_eq!(entries[0].1.explanation.body, "a list of items");
}

#[test]
fn complements_and_examples_are_split_off() {
    let line = "\u{25a0}dog : a canine\u{25c6}faithful\u{25c6}loyal\u{25a0}\u{30fb}The dog barked.\u{25a0}\u{30fb}Good dog.";
    let (entries, skipped) = parse(line).unwrap();
    assert_eq!(skipped, 0);
    assert_eq!(entries.len(), 1);
    let f = &entries[0].1;
    assert_eq!(f.explanation.body, "a canine");
    assert_eq!(f.explanation.complements, vec!["faithful", "loyal"]);
    assert_eq!(f.examples, vec!["The dog barked.", "Good dog."]);
}

#[test]
fn marker_after_example_start_is_literal() {
    let line = "\u{25a0}x : body\u{25a0}\u{30fb}an example with \u{25c6} inside";
    let (entries, _) = parse(line).unwrap();
    let f = &entries[0].1;
    assert_eq!(f.explanation.body, "body");
    assert!(f.explanation.complements.is_empty());
    assert_eq!(f.examples, vec!["an example with \u{25c6} inside"]);
}

#[test]
fn blank_lines_are_skipped_silently() {
    let text = "\n   \n\u{25a0}cat : feline\n\n";
    let (entries, skipped) = parse(text).unwrap();
    assert_eq!(entries.len(), 1);
    assert_eq!(skipped, 0);
}

#[test]
fn missing_gloss_is_collected_not_fatal() {
    let text = "\u{25a0}cat : feline\nnot an entry line\n\u{25a0}broken\n\u{25a0} : no headword";
    let (entries, skipped) = parse(text).unwrap();
    assert_eq!(entries.len(), 1);
    assert_eq!(skipped, 3);
}

#[test]
fn parse_fails_only_with_zero_valid_lines() {
    let r = parse("garbage\nmore garbage");
    assert_eq!(r.err(), Some(ParseError::NoValidEntries));
    let r2 = parse("");
    assert_eq!(r2.err(), Some(ParseError::NoValidEntries));
}

#[test]
fn empty_gloss_after_trimming_is_malformed() {
    let r = parse("\u{25a0}cat :    ");
    assert_eq!(r.err(), Some(ParseError::NoValidEntries));
}

#[test]
fn builder_groups_by_headword_and_sorts() {
    let text = "\u{25a0}zebra : stripes\n\u{25a0}ant : small\n\u{25a0}zebra {n} : animal";
    let (entries, _) = parse(text).unwrap();
    let d = build(&entries).unwrap();
    assert_eq!(d.len(), 2);
    assert_eq!(d.key_at(0), "ant");
    assert_eq!(d.key_at(1), "zebra");
    assert_eq!(d.fields_at(0).len(), 1);
    assert_eq!(d.fields_at(1).len(), 2);
    assert_eq!(d.fields_at(1)[0].explanation.body, "stripes");
    assert_eq!(d.fields_at(1)[1].explanation.body, "animal");
}

#[test]
fn builder_refuses_empty_input() {
    let entries = Vec::new();
    assert_eq!(build(&entries).err(), Some(BuildError::EmptyCorpus));
}

#[test]
fn keys_are_strictly_ascending() {
    let text = "\u{25a0}b : two\n\u{25a0}a : one\n\u{25a0}c : three\n\u{25a0}b : again";
    let (entries, _) = parse(text).unwrap();
    let d = build(&entries).unwrap();
    assert_eq!(d.len(), 3);
    for i in 0..d.len() - 1 {
        assert!(d.key_at(i) < d.key_at(i + 1));
    }
}
