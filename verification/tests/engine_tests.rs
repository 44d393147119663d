use eijiro::builder::build;
use eijiro::index::edit_distance;
use eijiro::parse::parse;
use eijiro::query::render_field;

fn chars(s: &str) -> Vec<char> {
    s.chars().collect()
}

fn dict_from(text: &str) -> eijiro::dict::Dictionary {
    let (entries, _) = parse(text).unwrap();
    build(&entries).unwrap()
}

#[test]
fn edit_distance_exact_values() {
    assert_eq!(edit_distance(&chars("kitten"), &chars("sitting")), 3);
    assert_eq!(edit_distance(&chars("flaw"), &chars("lawn")), 2);
    assert_eq!(edit_distance(&chars(""), &chars("abc")), 3);
    assert_eq!(edit_distance(&chars("abc"), &chars("")), 3);
    assert_eq!(edit_distance(&chars("same"), &chars("same")), 0);
    assert_eq!(edit_distance(&chars("cat"), &chars("catalog")), 4);
    assert_eq!(edit_distance(&chars("cat"), &chars("cut")), 1);
}

#[test]
fn exact_finds_the_position() {
    let d = dict_from("\u{25a0}cat : feline\n\u{25a0}dog : canine\n\u{25a0}emu : bird");
    assert_eq!(d.exact("cat"), Some(0));
    assert_eq!(d.exact("dog"), Some(1));
    assert_eq!(d.exact("emu"), Some(2));
    assert_eq!(d.exact("cow"), None);
    assert_eq!(d.exact(""), None);
}

#[test]
fn fuzzy_zero_is_exact_membership() {
    let d = dict_from("\u{25a0}cat : feline\n\u{25a0}cut : slice");
    let hits = d.fuzzy("cat", 0);
    assert_eq!(hits.len(), 1);
    assert_eq!(hits[0].0, "cat");
    assert_eq!(hits[0].1, 0);
    assert!(d.fuzzy("cot", 0).is_empty());
}

#[test]
fn fuzzy_matches_iff_within_distance() {
    let d = dict_from("\u{25a0}cast : throw\n\u{25a0}cat : feline\n\u{25a0}cut : slice\n\u{25a0}dog : canine");
    let hits = d.fuzzy("cat", 1);
    let words: Vec<&str> = hits.iter().map(|h| h.0.as_str()).collect();
    assert_eq!(words, vec!["cast", "cat", "cut"]);
    for (w, pos) in &hits {
        assert!(edit_distance(&chars("cat"), &chars(w)) <= 1);
        assert_eq!(d.key_at(*pos), w);
    }
    assert!(edit_distance(&chars("cat"), &chars("dog")) > 1);
}

#[test]
fn fuzzy_enumerates_in_key_order() {
    let d = dict_from("\u{25a0}bat : club\n\u{25a0}cat : feline\n\u{25a0}hat : brim");
    let hits = d.fuzzy("cat", 1);
    let positions: Vec<usize> = hits.iter().map(|h| h.1).collect();
    assert_eq!(positions, vec![0, 1, 2]);
}

#[test]
fn lookup_scenario_two_senses_and_a_neighbour() {
    let text = "\u{25a0}cat {n} : feline animal\u{25a0}\u{30fb}The cat slept.\n\u{25a0}cat {v} : to move stealthily\n\u{25a0}catalog : a list of items";
    let d = dict_from(text);
    assert_eq!(d.len(), 2);
    assert_eq!(d.key_at(0), "cat");
    assert_eq!(d.key_at(1), "catalog");
    assert_eq!(d.fields_at(0).len(), 2);

    let r0 = d.lookup("cat", 0);
    assert_eq!(r0.len(), 1);
    assert_eq!(r0[0].0, "cat");
    assert_eq!(r0[0].1.len(), 2);
    assert_eq!(r0[0].1[0].ident.as_deref(), Some("n"));
    assert_eq!(r0[0].1[0].explanation.body, "feline animal");
    assert_eq!(r0[0].1[0].examples, vec!["The cat slept."]);
    assert_eq!(r0[0].1[1].ident.as_deref(), Some("v"));
    assert_eq!(r0[0].1[1].explanation.body, "to move stealthily");
    assert!(r0[0].1[1].examples.is_empty());

    let r2 = d.lookup("cat", 2);
    assert_eq!(r2.len(), 1);
    assert_eq!(r2[0].0, "cat");

    let r4 = d.lookup("cat", 4);
    assert_eq!(r4.len(), 2);
    assert_eq!(r4[0].0, "cat");
    assert_eq!(r4[1].0, "catalog");
}

#[test]
fn lookup_ranks_prefix_matches_first() {
    let text = "\u{25a0}cab : taxi\n\u{25a0}car : vehicle\n\u{25a0}care : concern\n\u{25a0}cart : wagon";
    let d = dict_from(text);
    let r = d.lookup("car", 2);
    let words: Vec<&str> = r.iter().map(|p| p.0.as_str()).collect();
    let split = words.iter().position(|w| !w.starts_with("car")).unwrap_or(words.len());
    for w in &words[..split] {
        assert!(w.starts_with("car"));
    }
    for w in &words[split..] {
        assert!(!w.starts_with("car"));
    }
    assert!(words.contains(&"car"));
    assert!(words.contains(&"care"));
    assert!(words.contains(&"cart"));
    assert!(words.contains(&"cab"));
}

#[test]
fn empty_query_returns_empty_not_error() {
    let d = dict_from("\u{25a0}cat : feline");
    let r = d.lookup("", 1);
    assert!(r.is_empty());
}

#[test]
fn render_shows_every_attribute() {
    let text = "\u{25a0}dog {n} : a canine\u{25c6}loyal\u{25a0}\u{30fb}Good dog.";
    let d = dict_from(text);
    let f = &d.fields_at(0)[0];
    let shown = render_field(f);
    assert_eq!(shown, "{n} : a canine\u{25c6}loyal\n        Good dog.");
}

#[test]
fn render_without_tag_has_no_header() {
    let d = dict_from("\u{25a0}emu : a bird");
    let shown = render_field(&d.fields_at(0)[0]);
    assert_eq!(shown, "a bird");
}

#[test]
fn non_ascii_headwords_are_kept_verbatim() {
    let text = "\u{25a0}caf\u{e9} : coffee house\n\u{25a0}na\u{ef}ve : artless";
    let d = dict_from(text);
    assert_eq!(d.exact("caf\u{e9}"), Some(0));
    assert_eq!(edit_distance(&chars("caf\u{e9}"), &chars("cafe")), 1);
}

#[test]
fn exact_over_many_keys_hits_every_position() {
    let words = [
        "apple", "banana", "cherry", "date", "elder", "fig", "grape", "kiwi", "lemon",
        "mango", "olive", "peach", "quince",
    ];
    let mut text = String::new();
    for w in &words {
        text.push_str(&format!("\u{25a0}{} : some gloss\n", w));
    }
    let d = dict_from(&text);
    assert_eq!(d.len(), words.len());
    for (i, w) in words.iter().enumerate() {
        assert_eq!(d.exact(w), Some(i));
    }
    assert_eq!(d.exact("aardvark"), None);
    assert_eq!(d.exact("zzz"), None);
    assert_eq!(d.exact("melon"), None);
}

#[test]
fn lookup_keeps_key_order_inside_each_rank_group() {
    let text = "\u{25a0}scan : look\n\u{25a0}span : width\n\u{25a0}spin : turn\n\u{25a0}spun : twisted";
    let d = dict_from(text);
    let r = d.lookup("spin", 2);
    let words: Vec<&str> = r.iter().map(|p| p.0.as_str()).collect();
    // One prefix match, then the rest in ascending key order.
    assert_eq!(words, vec!["spin", "scan", "span", "spun"]);
}
