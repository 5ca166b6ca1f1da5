use spellcheck::dictionary::Dictionary;
use spellcheck::distance::distance;
use spellcheck::order::{precedes_or_equals, same_text};

fn dict(words: &[&str]) -> Dictionary {
    Dictionary::load(&words.iter().map(|w| w.to_string()).collect())
}

fn listed(d: &Dictionary) -> Vec<String> {
    (0..d.len()).map(|i| d.word(i).to_string()).collect()
}

#[test]
fn load_keeps_sorted_input_as_it_is() {
    let d = dict(&["apple", "banana", "cherry"]);
    assert_eq!(listed(&d), vec!["apple", "banana", "cherry"]);
}

#[test]
fn load_puts_words_in_order() {
    let d = dict(&["cat", "dog", "cot"]);
    assert_eq!(listed(&d), vec!["cat", "cot", "dog"]);
}

#[test]
fn load_keeps_duplicates() {
    let d = dict(&["b", "a", "b", "a"]);
    assert_eq!(listed(&d), vec!["a", "a", "b", "b"]);
    assert_eq!(d.len(), 4);
}

#[test]
fn load_orders_by_code_point_and_keeps_case() {
    let d = dict(&["apple", "Zebra", "\u{e9}t\u{e9}", "zoo", ""]);
    assert_eq!(listed(&d), vec!["", "Zebra", "apple", "zoo", "\u{e9}t\u{e9}"]);
}

#[test]
fn load_agrees_with_the_order_of_str() {
    let mut words = vec!["pear", "apple", "fig", "app", "apples", "Fig", "fig", "\u{4e2d}", "~"];
    let d = dict(&words);
    words.sort();
    assert_eq!(listed(&d), words);
}

#[test]
fn empty_dictionary() {
    let d = dict(&[]);
    assert!(d.is_empty());
    assert_eq!(d.len(), 0);
    assert!(!d.contains("a"));
    assert!(d.nearest_neighbor("a").is_none());
}

#[test]
fn contains_finds_every_word_and_no_other() {
    let words = ["ant", "bee", "cat", "dog", "eel", "fox", "gnu"];
    let d = dict(&words);
    assert!(!d.is_empty());
    for w in words {
        assert!(d.contains(w), "{}", w);
    }
    for w in ["", "a", "an", "ants", "bed", "cow", "zebra", "Ant", "gn"] {
        assert!(!d.contains(w), "{}", w);
    }
}

#[test]
fn contains_is_case_sensitive() {
    let d = dict(&["apple"]);
    assert!(d.contains("apple"));
    assert!(!d.contains("Apple"));
    assert!(!d.contains("APPLE"));
}

#[test]
fn contains_after_unsorted_load() {
    let d = dict(&["pear", "apple", "fig"]);
    assert!(d.contains("pear"));
    assert!(d.contains("apple"));
    assert!(d.contains("fig"));
    assert!(!d.contains("plum"));
}

#[test]
fn nearest_neighbor_gives_the_distance() {
    let d = dict(&["sitting"]);
    assert_eq!(d.nearest_neighbor("kitten"), Some((3, "sitting".to_string())));
    let d = dict(&["kitten"]);
    assert_eq!(d.nearest_neighbor("sitting"), Some((3, "kitten".to_string())));
}

#[test]
fn nearest_neighbor_of_a_known_word_is_itself() {
    let d = dict(&["apple", "banana"]);
    assert_eq!(d.nearest_neighbor("banana"), Some((0, "banana".to_string())));
}

#[test]
fn nearest_neighbor_of_the_empty_word() {
    let d = dict(&["abc", "de"]);
    assert_eq!(d.nearest_neighbor(""), Some((2, "de".to_string())));
}

#[test]
fn nearest_neighbor_takes_the_least_distance() {
    let d = dict(&["apple", "apply", "ample", "maple"]);
    assert_eq!(d.nearest_neighbor("applt"), Some((1, "apple".to_string())));
    assert_eq!(d.nearest_neighbor("mapl"), Some((1, "maple".to_string())));
}

#[test]
fn nearest_neighbor_breaks_ties_by_order() {
    let d = dict(&["cat", "dog", "cot"]);
    assert_eq!(d.nearest_neighbor("cta"), Some((2, "cat".to_string())));
    let d = dict(&["cot", "cat"]);
    assert_eq!(d.nearest_neighbor("cta"), Some((2, "cat".to_string())));
}

#[test]
fn nearest_neighbor_counts_characters_not_bytes() {
    let d = dict(&["\u{e9}t\u{e9}"]);
    assert_eq!(d.nearest_neighbor("ete"), Some((2, "\u{e9}t\u{e9}".to_string())));
}

#[test]
fn distance_is_symmetric_on_examples() {
    let pairs = [("kitten", "sitting"), ("flaw", "lawn"), ("", "abc"), ("saturday", "sunday")];
    let expected = [3, 2, 3, 3];
    for (i, (a, b)) in pairs.iter().enumerate() {
        let ab = dict(&[b]).nearest_neighbor(a).map(|r| r.0);
        let ba = dict(&[a]).nearest_neighbor(b).map(|r| r.0);
        assert_eq!(ab, Some(expected[i]));
        assert_eq!(ba, Some(expected[i]));
    }
}

#[test]
fn distance_to_self_is_zero() {
    for w in ["", "a", "spelling", "\u{e9}t\u{e9}"] {
        assert_eq!(dict(&[w]).nearest_neighbor(w).map(|r| r.0), Some(0));
    }
}

#[test]
fn order_of_strings() {
    assert!(precedes_or_equals("", ""));
    assert!(precedes_or_equals("", "a"));
    assert!(!precedes_or_equals("a", ""));
    assert!(precedes_or_equals("abc", "abc"));
    assert!(precedes_or_equals("abc", "abd"));
    assert!(!precedes_or_equals("abd", "abc"));
    assert!(precedes_or_equals("ab", "abc"));
    assert!(!precedes_or_equals("abc", "ab"));
    assert!(precedes_or_equals("Z", "a"));
    assert!(precedes_or_equals("z", "\u{e9}"));
}

#[test]
fn sameness_of_strings() {
    assert!(same_text("", ""));
    assert!(same_text("abc", "abc"));
    assert!(!same_text("abc", "abd"));
    assert!(!same_text("abc", "ab"));
    assert!(!same_text("abc", "Abc"));
}

#[test]
fn distance_examples() {
    assert_eq!(distance("kitten", "sitting"), 3);
    assert_eq!(distance("flaw", "lawn"), 2);
    assert_eq!(distance("saturday", "sunday"), 3);
    assert_eq!(distance("", ""), 0);
    assert_eq!(distance("abc", ""), 3);
    assert_eq!(distance("", "abcd"), 4);
    assert_eq!(distance("a", "b"), 1);
    assert_eq!(distance("ab", "ba"), 2);
    assert_eq!(distance("cta", "cat"), 2);
    assert_eq!(distance("cta", "cot"), 2);
    assert_eq!(distance("cta", "dog"), 3);
    assert_eq!(distance("\u{e9}t\u{e9}", "ete"), 2);
}

#[test]
fn distance_is_the_same_in_both_directions() {
    let words = ["", "a", "abc", "kitten", "sitting", "sunday", "\u{e9}t\u{e9}"];
    for a in words {
        for b in words {
            assert_eq!(distance(a, b), distance(b, a), "{} {}", a, b);
        }
    }
}

#[test]
fn distance_is_zero_for_equal_strings_only() {
    let words = ["", "a", "abc", "abd", "Abc", "kitten"];
    for a in words {
        for b in words {
            assert_eq!(distance(a, b) == 0, a == b, "{} {}", a, b);
        }
    }
}
