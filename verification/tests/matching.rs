use term_input_tree::{Rule, Trie, TrieError};

fn rule(pattern: &[u8], value: &'static str) -> Rule<&'static str> {
    Rule { pattern: pattern.to_vec(), value }
}

fn arrows() -> Trie<&'static str> {
    Trie::build(vec![rule(&[0x1B, 0x5B, 0x41], "Up"), rule(&[0x1B, 0x5B, 0x42], "Down")]).unwrap()
}

fn letters() -> Trie<&'static str> {
    Trie::build(vec![rule(&[0x61], "a"), rule(&[0x61, 0x62], "ab")]).unwrap()
}

#[test]
fn arrow_sequence_matches_whole_pattern() {
    let trie = arrows();
    let out = trie.longest_match(&[0x1B, 0x5B, 0x41]);
    assert_eq!(out.value, Some(&"Up"));
    assert_eq!(out.consumed, 3);
    let out = trie.longest_match(&[0x1B, 0x5B, 0x42]);
    assert_eq!(out.value, Some(&"Down"));
    assert_eq!(out.consumed, 3);
}

#[test]
fn unknown_final_byte_stops_at_shared_prefix() {
    let trie = arrows();
    let out = trie.longest_match(&[0x1B, 0x5B, 0x43]);
    assert_eq!(out.value, None);
    assert_eq!(out.consumed, 2);
}

#[test]
fn short_pattern_matches_alone() {
    let trie = letters();
    let out = trie.longest_match(&[0x61]);
    assert_eq!(out.value, Some(&"a"));
    assert_eq!(out.consumed, 1);
}

#[test]
fn longer_pattern_wins_when_present() {
    let trie = letters();
    let out = trie.longest_match(&[0x61, 0x62]);
    assert_eq!(out.value, Some(&"ab"));
    assert_eq!(out.consumed, 2);
}

#[test]
fn divergent_byte_falls_back_to_shorter_pattern() {
    let trie = letters();
    let out = trie.longest_match(&[0x61, 0x63]);
    assert_eq!(out.value, Some(&"a"));
    assert_eq!(out.consumed, 1);
}

#[test]
fn empty_buffer_gives_no_value_and_consumes_nothing() {
    let trie = arrows();
    let out = trie.longest_match(&[]);
    assert_eq!(out.value, None);
    assert_eq!(out.consumed, 0);
    let empty: Trie<u32> = Trie::new();
    let out = empty.longest_match(&[]);
    assert_eq!(out.value, None);
    assert_eq!(out.consumed, 0);
}

#[test]
fn tree_without_rules_consumes_nothing() {
    let empty: Trie<u32> = Trie::new();
    let out = empty.longest_match(&[1, 2, 3]);
    assert_eq!(out.value, None);
    assert_eq!(out.consumed, 0);
}

#[test]
fn buffer_ending_inside_a_pattern_reports_no_value() {
    let trie = arrows();
    let out = trie.longest_match(&[0x1B]);
    assert_eq!(out.value, None);
    assert_eq!(out.consumed, 1);
    let out = trie.longest_match(&[0x1B, 0x5B]);
    assert_eq!(out.value, None);
    assert_eq!(out.consumed, 2);
}

#[test]
fn unknown_first_byte_consumes_nothing() {
    let trie = arrows();
    let out = trie.longest_match(&[0x41, 0x1B, 0x5B, 0x41]);
    assert_eq!(out.value, None);
    assert_eq!(out.consumed, 0);
}

#[test]
fn trailing_bytes_stay_unconsumed() {
    let trie = arrows();
    let out = trie.longest_match(&[0x1B, 0x5B, 0x41, 0x1B, 0x5B, 0x42]);
    assert_eq!(out.value, Some(&"Up"));
    assert_eq!(out.consumed, 3);
}

#[test]
fn every_rule_matches_its_own_pattern() {
    let patterns: Vec<Vec<u8>> = vec![
        vec![0x1B],
        vec![0x1B, 0x5B, 0x41],
        vec![0x1B, 0x5B, 0x31, 0x7E],
        vec![0x00],
        vec![0xFF, 0xFF],
    ];
    let rules: Vec<Rule<usize>> = patterns
        .iter()
        .enumerate()
        .map(|(i, p)| Rule { pattern: p.clone(), value: i + 10 })
        .collect();
    let trie = Trie::build(rules).unwrap();
    for (i, p) in patterns.iter().enumerate() {
        let out = trie.longest_match(p);
        assert_eq!(out.value, Some(&(i + 10)));
        assert_eq!(out.consumed, p.len());
    }
}

#[test]
fn extra_trailing_byte_is_not_counted() {
    let trie = letters();
    for b in 0u8..=255 {
        let out = trie.longest_match(&[0x61, 0x62, b]);
        assert_eq!(out.value, Some(&"ab"));
        assert_eq!(out.consumed, 2);
    }
}

#[test]
fn duplicate_pattern_fails_construction() {
    let res = Trie::build(vec![rule(&[0x1B, 0x5B, 0x41], "Up"), rule(&[0x1B, 0x5B, 0x41], "Down")]);
    assert!(matches!(res, Err(TrieError::DuplicatePattern)));
    let res = Trie::build(vec![
        rule(&[0x61], "a"),
        rule(&[0x61, 0x62], "ab"),
        rule(&[0x61], "again"),
    ]);
    assert!(matches!(res, Err(TrieError::DuplicatePattern)));
}

#[test]
fn duplicate_pattern_with_same_value_fails_too() {
    let res = Trie::build(vec![rule(&[0x61], "a"), rule(&[0x61], "a")]);
    assert!(matches!(res, Err(TrieError::DuplicatePattern)));
}

#[test]
fn refused_insert_leaves_the_tree_as_it_was() {
    let mut trie: Trie<&'static str> = Trie::new();
    assert_eq!(trie.insert(&[0x61], "a"), Ok(()));
    assert_eq!(trie.insert(&[0x61, 0x62], "ab"), Ok(()));
    assert_eq!(trie.insert(&[0x61], "other"), Err(TrieError::DuplicatePattern));
    let out = trie.longest_match(&[0x61]);
    assert_eq!(out.value, Some(&"a"));
    assert_eq!(out.consumed, 1);
    let out = trie.longest_match(&[0x61, 0x62]);
    assert_eq!(out.value, Some(&"ab"));
    assert_eq!(out.consumed, 2);
}

#[test]
fn prefix_may_be_registered_after_its_extension() {
    let mut trie: Trie<u8> = Trie::new();
    assert_eq!(trie.insert(&[1, 2, 3], 3), Ok(()));
    assert_eq!(trie.insert(&[1, 2], 2), Ok(()));
    assert_eq!(trie.insert(&[1], 1), Ok(()));
    assert_eq!(trie.longest_match(&[1]).value, Some(&1));
    assert_eq!(trie.longest_match(&[1, 2]).value, Some(&2));
    assert_eq!(trie.longest_match(&[1, 2, 3]).value, Some(&3));
    assert_eq!(trie.longest_match(&[1, 2, 4]).value, Some(&2));
    assert_eq!(trie.longest_match(&[1, 2, 4]).consumed, 2);
}

#[test]
fn empty_rule_set_builds() {
    let trie: Trie<u8> = Trie::build(Vec::new()).unwrap();
    assert_eq!(trie.longest_match(&[7]).consumed, 0);
}
