use spellcheck::dictionary::Dictionary;
use spellcheck::matcher::{check, spellcheck, split_tokens, tokenize};
use spellcheck::trim::{trim, trim_range, Edge};

fn dict(words: &[&str]) -> Dictionary {
    Dictionary::load(&words.iter().map(|w| w.to_string()).collect())
}

fn strings(words: &[&str]) -> Vec<String> {
    words.iter().map(|w| w.to_string()).collect()
}

#[test]
fn tokenize_splits_on_comma_and_space() {
    assert_eq!(tokenize("hello, world"), vec!["hello", "world"]);
}

#[test]
fn tokenize_keeps_the_apostrophe() {
    assert_eq!(tokenize("can't stop"), vec!["can't", "stop"]);
}

#[test]
fn tokenize_lowers_the_case() {
    assert_eq!(tokenize("Hello WORLD"), vec!["hello", "world"]);
    assert_eq!(tokenize("\u{c9}T\u{c9}"), vec!["\u{e9}t\u{e9}"]);
}

#[test]
fn split_tokens_keeps_the_case() {
    assert_eq!(split_tokens("Hello WORLD"), vec!["Hello", "WORLD"]);
}

#[test]
fn tokenize_strips_the_ends_of_a_fragment() {
    assert_eq!(tokenize("(hello)! \"world\"... 42nd"), vec!["hello", "world", "nd"]);
    assert_eq!(tokenize("'tis 'quoted'"), vec!["'tis", "'quoted'"]);
}

#[test]
fn tokenize_keeps_what_stands_inside() {
    assert_eq!(tokenize("well-known"), vec!["well-known"]);
    assert_eq!(tokenize("a1b2c --x.y.z--"), vec!["a1b2c", "x.y.z"]);
}

#[test]
fn tokenize_drops_fragments_without_a_letter() {
    assert_eq!(tokenize("123 ... -- 4,5"), Vec::<String>::new());
    assert_eq!(tokenize("one 2 three"), vec!["one", "three"]);
}

#[test]
fn tokenize_of_nothing() {
    assert_eq!(tokenize(""), Vec::<String>::new());
    assert_eq!(tokenize("  \t \n"), Vec::<String>::new());
    assert_eq!(tokenize(",,, ,"), Vec::<String>::new());
}

#[test]
fn tokenize_takes_any_white_space() {
    assert_eq!(tokenize("a\tb\nc\r\nd\u{a0}e\u{3000}f"), vec!["a", "b", "c", "d", "e", "f"]);
    assert_eq!(tokenize("a,b,,c ,  d\n"), vec!["a", "b", "c", "d"]);
}

#[test]
fn tokens_have_a_letter_or_apostrophe_at_each_end() {
    let lines = ["hello, world", "--a-- 'b' 1c1 ...", "x,y;z (w)", "\u{e9}!\u{e9}? 9"];
    for line in lines {
        for token in tokenize(line) {
            let first = token.chars().next().unwrap();
            let last = token.chars().last().unwrap();
            assert!(first.is_alphabetic() || first == '\'');
            assert!(last.is_alphabetic() || last == '\'');
        }
    }
}

#[test]
fn tokenize_agrees_with_the_standard_splitting() {
    let lines = ["The quick, brown fox; jumps!", " a,,b  c'd -e- 12 ", "\u{c9}cole, na\u{ef}ve\tcaf\u{e9}."];
    for line in lines {
        let lowered = line.to_lowercase();
        let expected: Vec<&str> = lowered
            .split(',')
            .flat_map(|s| s.split_whitespace())
            .map(|s| s.trim_matches(|c: char| !(c.is_alphabetic() || c == '\'')))
            .filter(|s| !s.is_empty())
            .collect();
        assert_eq!(tokenize(line), expected);
    }
}

#[test]
fn trim_strips_both_ends() {
    assert_eq!(trim("  hello world \n", Edge::Visible), "hello world");
    assert_eq!(trim("hello", Edge::Visible), "hello");
    assert_eq!(trim(" \t ", Edge::Visible), "");
    assert_eq!(trim("", Edge::Visible), "");
    assert_eq!(trim("--it's--", Edge::Word), "it's");
    assert_eq!(trim("1234", Edge::Word), "");
    assert_eq!(trim("\u{e9}t\u{e9}!", Edge::Word), "\u{e9}t\u{e9}");
}

#[test]
fn trim_range_gives_the_places() {
    assert_eq!(trim_range("ab (cd) ef", 3, 7, Edge::Word), (4, 6));
    assert_eq!(trim_range("ab (cd) ef", 0, 10, Edge::Word), (0, 10));
    assert_eq!(trim_range("ab 12 ef", 3, 5, Edge::Word), (5, 5));
    assert_eq!(trim_range("abc", 1, 1, Edge::Word), (1, 1));
}

#[test]
fn check_passes_known_words() {
    let d = dict(&["apple"]);
    assert!(check(&strings(&["apple"]), &d).is_empty());
    assert!(spellcheck("apple", &d).is_empty());
}

#[test]
fn check_proposes_a_nearest_word() {
    let d = dict(&["cat", "dog", "cot"]);
    let found = check(&strings(&["cta"]), &d);
    assert_eq!(found.len(), 1);
    assert_eq!(found[0].token, "cta");
    assert_eq!(found[0].distance, 2);
    assert!(found[0].replacement == "cat" || found[0].replacement == "cot");
    assert_eq!(found[0].replacement, "cat");
}

#[test]
fn check_gives_one_suggestion_for_each_unknown_token() {
    let d = dict(&["brown", "fox", "quick", "the"]);
    let found = check(&strings(&["the", "quikc", "brwn", "fox", "fx"]), &d);
    assert_eq!(found.len(), 3);
    assert_eq!((found[0].token.as_str(), found[0].replacement.as_str(), found[0].distance), ("quikc", "quick", 2));
    assert_eq!((found[1].token.as_str(), found[1].replacement.as_str(), found[1].distance), ("brwn", "brown", 1));
    assert_eq!((found[2].token.as_str(), found[2].replacement.as_str(), found[2].distance), ("fx", "fox", 1));
}

#[test]
fn check_repeats_a_suggestion_for_a_repeated_token() {
    let d = dict(&["apple"]);
    let found = check(&strings(&["aple", "aple"]), &d);
    assert_eq!(found.len(), 2);
    assert_eq!(found[0].distance, 1);
    assert_eq!(found[1].distance, 1);
}

#[test]
fn check_is_case_sensitive_on_its_tokens() {
    let d = dict(&["apple"]);
    let found = check(&strings(&["Apple"]), &d);
    assert_eq!(found.len(), 1);
    assert_eq!(found[0].replacement, "apple");
    assert_eq!(found[0].distance, 1);
}

#[test]
fn check_without_words_proposes_nothing() {
    let d = dict(&[]);
    assert!(check(&strings(&["anything"]), &d).is_empty());
    assert!(check(&strings(&[]), &d).is_empty());
}

#[test]
fn spellcheck_ignores_the_case_of_the_line() {
    let d = dict(&["apple", "pie"]);
    assert!(spellcheck("Apple PIE", &d).is_empty());
}

#[test]
fn spellcheck_of_a_line() {
    let d = dict(&["hello", "world"]);
    let found = spellcheck("Helo, wrld! hello 42\n", &d);
    assert_eq!(found.len(), 2);
    assert_eq!(found[0].token, "helo");
    assert_eq!(found[0].replacement, "hello");
    assert_eq!(found[0].distance, 1);
    assert_eq!(found[1].token, "wrld");
    assert_eq!(found[1].replacement, "world");
    assert_eq!(found[1].distance, 1);
}

#[test]
fn spellcheck_does_not_find_upper_case_entries() {
    let d = dict(&["Apple"]);
    let found = spellcheck("Apple", &d);
    assert_eq!(found.len(), 1);
    assert_eq!(found[0].token, "apple");
    assert_eq!(found[0].replacement, "Apple");
    assert_eq!(found[0].distance, 1);
}
