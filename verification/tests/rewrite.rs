use octofact::hyperbolic::rewrite::{
    is_confluent, parse_rules, reduced, shortlex_cmp, string_to_word, word_to_string, A, B, B_INV,
};
use std::cmp::Ordering;

#[test]
fn test_shortlex_empty_smallest() {
    assert_eq!(shortlex_cmp(&[], &[A]), Ordering::Less);
    assert_eq!(shortlex_cmp(&[], &[B]), Ordering::Less);
    assert_eq!(shortlex_cmp(&[], &[B_INV]), Ordering::Less);
    assert_eq!(shortlex_cmp(&[], &[]), Ordering::Equal);
}

#[test]
fn test_shortlex_length_dominates() {
    // Shorter always wins, even if letters are "bigger"
    assert_eq!(shortlex_cmp(&[A], &[B_INV, B_INV]), Ordering::Less);
}

#[test]
fn test_shortlex_same_length_lex() {
    // b < B < a
    assert_eq!(shortlex_cmp(&[B_INV], &[B]), Ordering::Less); // b < B
    assert_eq!(shortlex_cmp(&[B], &[A]), Ordering::Less); // B < a
    assert_eq!(shortlex_cmp(&[B_INV], &[A]), Ordering::Less); // b < a
}

#[test]
fn test_shortlex_multi_char() {
    // "ba" < "Ba" < "aB" < "aa" (all length 2)
    let ba = [B_INV, A];
    let b_a = [B, A]; // "Ba"
    let ab = [A, B];
    let aa = [A, A];
    assert_eq!(shortlex_cmp(&ba, &b_a), Ordering::Less);
    assert_eq!(shortlex_cmp(&b_a, &ab), Ordering::Less);
    assert_eq!(shortlex_cmp(&ab, &aa), Ordering::Less);
}

#[test]
fn test_word_to_string() {
    assert_eq!(word_to_string(&[]), "e");
    assert_eq!(word_to_string(&[A]), "a");
    assert_eq!(word_to_string(&[B]), "B");
    assert_eq!(word_to_string(&[B_INV]), "b");
    assert_eq!(word_to_string(&[A, B, A, B_INV]), "aBab");
}

#[test]
fn test_string_to_word() {
    assert_eq!(string_to_word("e"), vec![]);
    assert_eq!(string_to_word(""), vec![]);
    assert_eq!(string_to_word("aBab"), vec![A, B, A, B_INV]);
}

#[test]
fn test_roundtrip_string() {
    let words = ["e", "a", "B", "b", "aBa", "bab", "BaBaB"];
    for s in &words {
        let w = string_to_word(s);
        let s2 = word_to_string(&w);
        assert_eq!(*s, s2, "roundtrip failed for '{}'", s);
    }
}

#[test]
fn shortlex_is_antisymmetric_on_samples() {
    let words: [&[u8]; 5] = [&[], &[A], &[B, A], &[A, B_INV], &[B, B, B]];
    for x in &words {
        for y in &words {
            assert_eq!(shortlex_cmp(x, y), shortlex_cmp(y, x).reverse());
        }
    }
}

#[test]
fn parsed_rules_reduce_cancellations() {
    let rules = parse_rules("[('bB', ''), ('Bb', ''), ('aa', ''), ('bbb', 'B'), ('BB', 'bb')]").unwrap();
    assert_eq!(rules.len(), 5);
    assert_eq!(reduced(&string_to_word("abBa"), &rules), Vec::<u8>::new());
    assert_eq!(reduced(&string_to_word("bbbb"), &rules), Vec::<u8>::new());
    assert_eq!(reduced(&string_to_word("BB"), &rules), string_to_word("bb"));
    let once = reduced(&string_to_word("aBabB"), &rules);
    assert_eq!(reduced(&once, &rules), once);
}

#[test]
fn parse_rules_skips_a_and_sorts_longest_first() {
    let rules = parse_rules("[('bB', ''), ('A', 'a'), ('bbb', 'B'), ('BB', 'bb')]").unwrap();
    assert_eq!(rules.len(), 3);
    assert_eq!(rules[0].lhs, vec![B_INV, B_INV, B_INV]);
    assert_eq!(rules[0].rhs, vec![B]);
    assert_eq!(rules[1].lhs, vec![B_INV, B]);
    assert_eq!(rules[1].rhs, Vec::<u8>::new());
    assert_eq!(rules[2].lhs, vec![B, B]);
    assert_eq!(rules[2].rhs, vec![B_INV, B_INV]);
}

#[test]
fn parse_rules_rejects_malformed_text() {
    assert!(parse_rules("[(bB, '')]").is_none());
    assert!(parse_rules("[('aX', '')]").is_none());
    assert!(parse_rules("(").is_none());
    assert_eq!(parse_rules("no pairs here").unwrap().len(), 0);
}

#[test]
fn cancellation_rules_are_confluent() {
    let rules = parse_rules("[('bB', ''), ('Bb', ''), ('aa', ''), ('bbb', 'B'), ('BB', 'bb')]").unwrap();
    assert!(is_confluent(&rules));
}

#[test]
fn rules_splitting_an_overlap_are_not_confluent() {
    let rules = parse_rules("[('aB', 'b'), ('Ba', '')]").unwrap();
    assert!(!is_confluent(&rules));
    // The overlap aBa reduces two ways to different words.
    assert_eq!(reduced(&string_to_word("ba"), &rules), string_to_word("ba"));
    assert_eq!(reduced(&string_to_word("a"), &rules), string_to_word("a"));
}
