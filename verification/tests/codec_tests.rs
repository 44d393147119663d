use eijiro::builder::build;
use eijiro::codec::{decode, encode};
use eijiro::parse::parse;

fn dict_from(text: &str) -> eijiro::dict::Dictionary {
    let (entries, _) = parse(text).unwrap();
    build(&entries).unwrap()
}

#[test]
fn round_trip_preserves_keys_and_fields() {
    let text = "\u{25a0}cat {n} : feline animal\u{25c6}a pet\u{25a0}\u{30fb}The cat slept.\n\u{25a0}cat {v} : to move stealthily\n\u{25a0}catalog : a list of items";
    let d = dict_from(text);
    let blob = encode(&d);
    let d2 = decode(&blob).expect("a fresh encoding must decode");
    assert_eq!(d2.len(), d.len());
    for i in 0..d.len() {
        assert_eq!(d2.key_at(i), d.key_at(i));
        let a = d.fields_at(i);
        let b = d2.fields_at(i);
        assert_eq!(a.len(), b.len());
        for (fa, fb) in a.iter().zip(b.iter()) {
            assert_eq!(fa.ident, fb.ident);
            assert_eq!(fa.explanation.body, fb.explanation.body);
            assert_eq!(fa.explanation.complements, fb.explanation.complements);
            assert_eq!(fa.examples, fb.examples);
        }
    }
}

#[test]
fn round_trip_keeps_non_ascii_text() {
    let text = "\u{25a0}\u{732b} : cat in another script\n\u{25a0}caf\u{e9} : coffee";
    let d = dict_from(text);
    let d2 = decode(&encode(&d)).unwrap();
    assert_eq!(d2.key_at(1), "\u{732b}");
    assert_eq!(d2.key_at(0), "caf\u{e9}");
}

#[test]
fn truncated_blob_is_refused() {
    let d = dict_from("\u{25a0}cat : feline");
    let mut blob = encode(&d);
    blob.pop();
    assert!(decode(&blob).is_none());
}

#[test]
fn trailing_garbage_is_refused() {
    let d = dict_from("\u{25a0}cat : feline");
    let mut blob = encode(&d);
    blob.push(0);
    assert!(decode(&blob).is_none());
}

#[test]
fn empty_and_nonsense_blobs_are_refused() {
    assert!(decode(&Vec::new()).is_none());
    assert!(decode(&vec![1, 2, 3]).is_none());
    // A huge announced count with no content behind it.
    assert!(decode(&vec![255, 255, 255, 255]).is_none());
}

#[test]
fn unsorted_keys_in_a_blob_are_refused() {
    // Two one-key dictionaries spliced by hand would be tedious; instead
    // corrupt a valid two-key blob by swapping the first key's first
    // character above the second key's.
    let d = dict_from("\u{25a0}ant : small\n\u{25a0}bee : buzzing");
    let blob = encode(&d);
    // Layout: count, then first key ("ant"): length then characters.
    // The first character 'a' sits at offset 8.
    let mut bad = blob.clone();
    assert_eq!(bad[8], b'a');
    bad[8] = b'z';
    assert!(decode(&bad).is_none());
    // The untouched blob still decodes.
    assert!(decode(&blob).is_some());
}

#[test]
fn surrogate_scalar_values_are_refused() {
    let d = dict_from("\u{25a0}a : x");
    let mut blob = encode(&d);
    // Overwrite the key's single character with a surrogate value 0xD800.
    assert_eq!(blob[8], b'a');
    blob[8] = 0x00;
    blob[9] = 0xD8;
    assert!(decode(&blob).is_none());
}
