use anagrams::get_anagrams;
use anagrams::get_c;
use anagrams::parse;
use anagrams::remove_c;
use anagrams::remove_whitespace;
use anagrams::Dictionary;

fn dict(words: &[&str]) -> Dictionary {
    let mut lines: Vec<String> = Vec::new();
    for w in words {
        lines.push(w.to_string());
    }
    parse(lines)
}

fn sorted(mut v: Vec<String>) -> Vec<String> {
    v.sort();
    v
}

fn letters_sorted(s: &str) -> Vec<char> {
    let mut cs: Vec<char> = s.chars().filter(|c| !c.is_whitespace()).collect();
    cs.sort();
    cs
}

#[test]
fn empty_query_returns_nothing() {
    let d = dict(&["cat", "dog"]);
    let r = d.anagrams("".to_string());
    assert!(r.is_empty());
}

#[test]
fn whitespace_only_query_returns_nothing() {
    let d = dict(&["cat", "dog"]);
    let r = d.anagrams(" \t\n".to_string());
    assert!(r.is_empty());
}

#[test]
fn no_match_returns_nothing() {
    let d = dict(&["cat", "dog"]);
    let r = d.anagrams("xyz".to_string());
    assert!(r.is_empty());
}

#[test]
fn empty_dictionary_finds_nothing() {
    let d = dict(&[]);
    let r = d.anagrams("cat".to_string());
    assert!(r.is_empty());
}

#[test]
fn single_word_exact_match_set() {
    let d = dict(&["cat", "act", "tac", "dog"]);
    let r = sorted(d.anagrams("cat".to_string()));
    let expected = sorted(vec!["cat".to_string(), "act".to_string(), "tac".to_string()]);
    assert_eq!(r, expected);
}

#[test]
fn word_is_its_own_anagram() {
    let d = dict(&["listen", "silent"]);
    let r = d.anagrams("listen".to_string());
    assert!(r.contains(&"listen".to_string()));
    assert!(r.contains(&"silent".to_string()));
}

#[test]
fn case_and_whitespace_insensitive() {
    let d = dict(&["listen", "silent"]);
    let a = d.anagrams("LiSt EN".to_string());
    let b = d.anagrams("listen".to_string());
    assert_eq!(a, b);
    assert!(a.contains(&"listen".to_string()));
    assert!(a.contains(&"silent".to_string()));
}

#[test]
fn dictionary_words_are_lowercased() {
    let d = dict(&["Cat"]);
    let r = d.anagrams("tca".to_string());
    assert_eq!(r, vec!["cat".to_string()]);
}

#[test]
fn multi_word_discovery() {
    let d = dict(&["a", "cat", "act", "tac"]);
    let r = d.anagrams("taca".to_string());
    assert!(r.contains(&"tac a".to_string()));
    assert!(r.contains(&"act a".to_string()));
    assert!(r.contains(&"a tac".to_string()));
}

#[test]
fn results_use_exactly_the_target_letters() {
    let d = dict(&["a", "cat", "act", "tac"]);
    let target = "cat a";
    let r = d.anagrams(target.to_string());
    assert!(!r.is_empty());
    for phrase in &r {
        assert_eq!(letters_sorted(phrase), letters_sorted(target));
    }
}

#[test]
fn inserting_twice_changes_nothing() {
    let once = dict(&["cat", "dog"]);
    let twice = dict(&["cat", "dog", "cat"]);
    assert_eq!(once.anagrams("act".to_string()), twice.anagrams("act".to_string()));
    assert_eq!(once.anagrams("dgo".to_string()), twice.anagrams("dgo".to_string()));
}

#[test]
fn word_that_is_a_prefix_of_another() {
    let d = dict(&["do", "dog"]);
    assert_eq!(d.anagrams("do".to_string()), vec!["do".to_string()]);
    assert_eq!(d.anagrams("dog".to_string()), vec!["dog".to_string()]);
}

#[test]
fn empty_lines_are_skipped() {
    let d = dict(&["", "cat", ""]);
    assert!(!d.is_word());
    let r = d.anagrams("tac".to_string());
    assert_eq!(r, vec!["cat".to_string()]);
}

#[test]
fn helper_searches_from_the_root_without_normalizing() {
    let d = dict(&["cat", "act"]);
    let r = sorted(d.anagrams_helper("tca".to_string(), &d));
    assert_eq!(r, sorted(vec!["cat".to_string(), "act".to_string()]));
}

#[test]
fn add_builds_the_same_dictionary_as_parse() {
    let d = Dictionary::default().add("cat".to_string()).add("act".to_string());
    let r = sorted(d.anagrams("cat".to_string()));
    assert_eq!(r, sorted(vec!["cat".to_string(), "act".to_string()]));
}

#[test]
fn get_anagrams_runs_the_whole_pipeline() {
    let lines = vec!["Listen".to_string(), "silent".to_string(), "dog".to_string()];
    let r = sorted(get_anagrams(lines, "TINSEL".to_string()));
    assert_eq!(r, sorted(vec!["listen".to_string(), "silent".to_string()]));
}

#[test]
fn from_str_node_carries_its_path() {
    let node = Dictionary::from_str("ca".to_string());
    assert!(!node.is_word());
}

#[test]
fn remove_c_removes_first_occurrence_only() {
    let r = remove_c(&"banana".to_string(), 'a');
    assert_eq!(r, Some("bnana".to_string()));
}

#[test]
fn remove_c_missing_character() {
    let r = remove_c(&"xyz".to_string(), 'q');
    assert_eq!(r, None);
}

#[test]
fn get_c_splits_off_the_first_character() {
    let (c, rest) = get_c(&"cat".to_string());
    assert_eq!(c, 'c');
    assert_eq!(rest, "at".to_string());
}

#[test]
fn remove_whitespace_drops_blanks() {
    assert_eq!(remove_whitespace("a b\tc\nd\re"), "abcde".to_string());
    assert_eq!(remove_whitespace("   "), "".to_string());
    assert_eq!(remove_whitespace("cat"), "cat".to_string());
}

#[test]
fn remove_whitespace_drops_unicode_blanks() {
    assert_eq!(remove_whitespace("a\u{000B}b\u{000C}c"), "abc".to_string());
    assert_eq!(remove_whitespace("a\u{00A0}b\u{2003}c\u{2028}d\u{3000}e"), "abcde".to_string());
    assert_eq!(remove_whitespace("\u{0085}\u{1680}\u{202F}\u{205F}"), "".to_string());
}

#[test]
fn unicode_letters_are_folded() {
    let d = dict(&["\u{C9}t\u{C9}"]);
    let r = d.anagrams("\u{E9}t\u{E9}".to_string());
    assert_eq!(r, vec!["\u{E9}t\u{E9}".to_string()]);
    assert_eq!(d.anagrams("T\u{C9}\u{E9}".to_string()), vec!["\u{E9}t\u{E9}".to_string()]);
}

#[test]
fn query_with_unicode_whitespace_still_matches() {
    let d = dict(&["cat"]);
    let r = d.anagrams("t\u{00A0}a\u{000B}c".to_string());
    assert_eq!(r, vec!["cat".to_string()]);
}
