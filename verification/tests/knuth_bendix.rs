use octofact::hyperbolic::knuth_bendix::{invert_word, string_to_word, word_lt_shortlex, word_to_string, RewriteSystem, Word, BACK, FWD, LEFT};
use std::collections::HashSet;

// -----------------------------------------------------------------------
// Helpers
// -----------------------------------------------------------------------

fn w(s: &str) -> Word {
    string_to_word(s)
}

fn ws(word: &[u8]) -> String {
    word_to_string(word)
}

/// Simple LCG-based pseudo-random number generator (deterministic, no deps).
struct SimpleRng {
    state: u64,
}

impl SimpleRng {
    fn new(seed: u64) -> Self {
        SimpleRng { state: seed }
    }
    fn next_u64(&mut self) -> u64 {
        self.state = self.state.wrapping_mul(6364136223846793005).wrapping_add(1442695040888963407);
        self.state
    }
    fn next_usize(&mut self, bound: usize) -> usize {
        (self.next_u64() % bound as u64) as usize
    }
    fn random_word(&mut self, max_len: usize) -> Word {
        let letters = [FWD, BACK, LEFT];
        let len = self.next_usize(max_len) + 1;
        (0..len).map(|_| letters[self.next_usize(3)]).collect()
    }
}

// -----------------------------------------------------------------------
// Unit tests for word utilities
// -----------------------------------------------------------------------

#[test]
fn test_shortlex_ordering() {
    // Shorter is smaller.
    assert!(word_lt_shortlex(&w("A"), &w("AA")));
    assert!(word_lt_shortlex(&w(""), &w("A")));
    // Same length: lexicographic with A < a < B.
    assert!(word_lt_shortlex(&w("A"), &w("a")));
    assert!(word_lt_shortlex(&w("A"), &w("B")));
    assert!(word_lt_shortlex(&w("a"), &w("B")));
    // Equal words: not less.
    assert!(!word_lt_shortlex(&w("AB"), &w("AB")));
    // Multi-letter.
    assert!(word_lt_shortlex(&w("AA"), &w("AB")));
    assert!(word_lt_shortlex(&w("Aa"), &w("AB")));
}

#[test]
fn test_invert_word() {
    assert_eq!(invert_word(&w("A")), w("a"));
    assert_eq!(invert_word(&w("a")), w("A"));
    assert_eq!(invert_word(&w("B")), w("BBB"));
    assert_eq!(invert_word(&w("AB")), w("BBBa"));
    assert_eq!(invert_word(&w("")), w(""));
}

// -----------------------------------------------------------------------
// Defining relations
// -----------------------------------------------------------------------

fn check_defining_relations(rw: &RewriteSystem) {
    let n = rw.vertex_order as usize;

    assert_eq!(rw.reduce(&w("Aa")), w(""), "Aa should reduce to e");
    assert_eq!(rw.reduce(&w("aA")), w(""), "aA should reduce to e");
    assert_eq!(rw.reduce(&w("BBBB")), w(""), "B^4 should reduce to e");

    // (AB)^n = e
    let ab_n: Word = "AB".repeat(n).bytes().collect();
    assert_eq!(rw.reduce(&ab_n), w(""), "(AB)^n should reduce to e");

    // (BA)^n = e
    let ba_n: Word = "BA".repeat(n).bytes().collect();
    assert_eq!(rw.reduce(&ba_n), w(""), "(BA)^n should reduce to e");

    // (AB)^{2n} = e
    let ab_2n: Word = "AB".repeat(2 * n).bytes().collect();
    assert_eq!(rw.reduce(&ab_2n), w(""), "(AB)^{{2n}} should reduce to e");
}

#[test]
fn test_defining_relations_n5() {
    let rw = RewriteSystem::new(5, 80);
    check_defining_relations(&rw);
}

#[test]
fn test_defining_relations_n6() {
    let rw = RewriteSystem::new(6, 80);
    check_defining_relations(&rw);
}

#[test]
fn test_defining_relations_n7() {
    let rw = RewriteSystem::new(7, 80);
    check_defining_relations(&rw);
}

// -----------------------------------------------------------------------
// Rule counts (match Python reference)
// -----------------------------------------------------------------------

#[test]
fn test_rule_counts() {
    let rw5 = RewriteSystem::new(5, 80);
    assert_eq!(rw5.rules.len(), 8, "n=5 should have 8 rules");

    let rw6 = RewriteSystem::new(6, 80);
    assert_eq!(rw6.rules.len(), 5, "n=6 should have 5 rules");

    let rw7 = RewriteSystem::new(7, 80);
    assert_eq!(rw7.rules.len(), 8, "n=7 should have 8 rules");
}

// -----------------------------------------------------------------------
// Idempotency
// -----------------------------------------------------------------------

fn check_idempotency(rw: &RewriteSystem, seed: u64) {
    let mut rng = SimpleRng::new(seed);
    for _ in 0..1000 {
        let word = rng.random_word(18);
        let reduced = rw.reduce(&word);
        let reduced2 = rw.reduce(&reduced);
        assert_eq!(
            reduced, reduced2,
            "idempotency failed: {} -> {} -> {}",
            ws(&word), ws(&reduced), ws(&reduced2)
        );
    }
}

#[test]
fn test_idempotency_n5() {
    let rw = RewriteSystem::new(5, 80);
    check_idempotency(&rw, 42 + 5);
}

#[test]
fn test_idempotency_n6() {
    let rw = RewriteSystem::new(6, 80);
    check_idempotency(&rw, 42 + 6);
}

#[test]
fn test_idempotency_n7() {
    let rw = RewriteSystem::new(7, 80);
    check_idempotency(&rw, 42 + 7);
}

// -----------------------------------------------------------------------
// Inverse cancellation
// -----------------------------------------------------------------------

fn check_inverse(rw: &RewriteSystem, seed: u64) {
    let mut rng = SimpleRng::new(seed);
    for _ in 0..1000 {
        let word = rng.random_word(12); // shorter to avoid exceeding max_length
        let inv = invert_word(&word);
        let mut product = word.clone();
        product.extend_from_slice(&inv);
        if product.len() <= rw.max_length {
            let result = rw.reduce(&product);
            assert_eq!(
                result,
                w(""),
                "inverse failed: {} * {} -> {}",
                ws(&word), ws(&inv), ws(&result)
            );
        }
    }
}

#[test]
fn test_inverse_n5() {
    let rw = RewriteSystem::new(5, 80);
    check_inverse(&rw, 42 + 5);
}

#[test]
fn test_inverse_n6() {
    let rw = RewriteSystem::new(6, 80);
    check_inverse(&rw, 42 + 6);
}

#[test]
fn test_inverse_n7() {
    let rw = RewriteSystem::new(7, 80);
    check_inverse(&rw, 42 + 7);
}

// -----------------------------------------------------------------------
// Identity insertion
// -----------------------------------------------------------------------

fn check_identity_insertion(rw: &RewriteSystem, seed: u64) {
    let n = rw.vertex_order as usize;
    let mut rng = SimpleRng::new(seed);
    let relators: Vec<Word> = vec![
        w("BBBB"),
        w("Aa"),
        w("aA"),
        "AB".repeat(n).bytes().collect(),
        "BA".repeat(n).bytes().collect(),
    ];

    for _ in 0..1000 {
        let word = rng.random_word(12);
        let reduced = rw.reduce(&word);

        let pos = rng.next_usize(word.len() + 1);
        let relator = &relators[rng.next_usize(relators.len())];

        let mut padded = word[..pos].to_vec();
        padded.extend_from_slice(relator);
        padded.extend_from_slice(&word[pos..]);

        if padded.len() <= rw.max_length {
            let padded_reduced = rw.reduce(&padded);
            assert_eq!(
                padded_reduced, reduced,
                "identity insertion failed: {} -> {}, padded({}, pos={}, rel={}) -> {}",
                ws(&word), ws(&reduced), ws(&padded), pos, ws(relator), ws(&padded_reduced)
            );
        }
    }
}

#[test]
fn test_identity_insertion_n5() {
    let rw = RewriteSystem::new(5, 80);
    check_identity_insertion(&rw, 42 + 5);
}

#[test]
fn test_identity_insertion_n6() {
    let rw = RewriteSystem::new(6, 80);
    check_identity_insertion(&rw, 42 + 6);
}

#[test]
fn test_identity_insertion_n7() {
    let rw = RewriteSystem::new(7, 80);
    check_identity_insertion(&rw, 42 + 7);
}

// -----------------------------------------------------------------------
// Growth rate (element counting)
// -----------------------------------------------------------------------

/// Expected distinct element counts by word length, from Python reference.
/// Format: [length_0, length_1, ..., length_7]
fn expected_growth(n: u32) -> Vec<usize> {
    match n {
        5 => vec![1, 3, 8, 20, 48, 114, 270, 636],
        6 => vec![1, 3, 8, 20, 48, 114, 270, 638],
        7 => vec![1, 3, 8, 20, 48, 114, 270, 638],
        _ => panic!("no reference data for n={n}"),
    }
}

fn count_distinct_elements(rw: &RewriteSystem, max_word_len: usize) -> Vec<usize> {
    let letters = [FWD, BACK, LEFT];
    let mut counts = Vec::new();

    for len in 0..=max_word_len {
        let mut seen: HashSet<Word> = HashSet::new();
        if len == 0 {
            seen.insert(rw.reduce(&[]));
        } else {
            // Generate all words of this length.
            let total = 3_usize.pow(len as u32);
            for i in 0..total {
                let mut word = Vec::with_capacity(len);
                let mut idx = i;
                for _ in 0..len {
                    word.push(letters[idx % 3]);
                    idx /= 3;
                }
                seen.insert(rw.reduce(&word));
            }
        }
        counts.push(seen.len());
    }
    counts
}

#[test]
fn test_growth_rate_n5() {
    let rw = RewriteSystem::new(5, 80);
    let counts = count_distinct_elements(&rw, 7);
    assert_eq!(counts, expected_growth(5), "growth mismatch for n=5");
}

#[test]
fn test_growth_rate_n6() {
    let rw = RewriteSystem::new(6, 80);
    let counts = count_distinct_elements(&rw, 7);
    assert_eq!(counts, expected_growth(6), "growth mismatch for n=6");
}

#[test]
fn test_growth_rate_n7() {
    let rw = RewriteSystem::new(7, 80);
    let counts = count_distinct_elements(&rw, 7);
    assert_eq!(counts, expected_growth(7), "growth mismatch for n=7");
}

// -----------------------------------------------------------------------
// Benchmark-ish: reduction of random words
// -----------------------------------------------------------------------

#[test]
fn test_reduction_bulk() {
    let rw = RewriteSystem::new(5, 40);
    let mut rng = SimpleRng::new(12345);
    for _ in 0..10_000 {
        let word = rng.random_word(20);
        let reduced = rw.reduce(&word);
        // Just verify it's idempotent.
        assert_eq!(rw.reduce(&reduced), reduced);
    }
}

// -----------------------------------------------------------------------
// Print rules (not a test, but useful for debugging)
// -----------------------------------------------------------------------

#[test]
fn test_print_rules() {
    for n in [5, 6, 7] {
        let rw = RewriteSystem::new(n, 80);
        println!("\n{{4, {n}}} — {} rules:", rw.rules.len());
        for (lhs, rhs) in &rw.rules {
            println!("  {:>40} -> {}", ws(lhs), ws(rhs));
        }
    }
}

fn relator_words(n: u32) -> Vec<Word> {
    vec![
        w("Aa"),
        w("aA"),
        w("BBBB"),
        "AB".repeat(n as usize).into_bytes(),
        "BA".repeat(n as usize).into_bytes(),
    ]
}

fn occurs_in(needle: &[u8], hay: &[u8]) -> bool {
    needle.len() <= hay.len() && hay.windows(needle.len()).any(|x| x == needle)
}

#[test]
fn completed_rules_are_distinct_and_rewrite_every_relator() {
    for n in [5u32, 6, 7] {
        let rw = RewriteSystem::new(n, 80);
        for i in 0..rw.rules.len() {
            for j in (i + 1)..rw.rules.len() {
                assert_ne!(rw.rules[i], rw.rules[j], "n={n}: rule {i} repeats as {j}");
            }
        }
        for rel in relator_words(n) {
            assert!(
                rw.rules.iter().any(|(l, _)| occurs_in(l, &rel)),
                "n={n}: no rule rewrites {}",
                ws(&rel)
            );
        }
    }
}

#[test]
fn completed_rules_join_every_critical_pair() {
    for n in [5u32, 6, 7] {
        let max_length = 80;
        let rw = RewriteSystem::new(n, max_length);
        for (l1, r1) in &rw.rules {
            for (l2, r2) in &rw.rules {
                let max_k = l1.len().min(l2.len());
                for k in 1..=max_k {
                    if l1[l1.len() - k..] == l2[..k] {
                        let mut left = r1.clone();
                        left.extend_from_slice(&l2[k..]);
                        let mut right = l1[..l1.len() - k].to_vec();
                        right.extend_from_slice(r2);
                        let a = rw.reduce(&left);
                        let b = rw.reduce(&right);
                        assert!(
                            a == b || a.len() > max_length || b.len() > max_length,
                            "n={n}: {} and {} reduce apart",
                            ws(&left),
                            ws(&right)
                        );
                    }
                }
            }
        }
    }
}

#[test]
fn short_bound_keeps_found_rules_short() {
    let n = 5u32;
    let rw = RewriteSystem::new(n, 6);
    let relators = relator_words(n);
    assert!(!rw.rules.is_empty());
    for (l, _) in &rw.rules {
        assert!(l.len() <= 6 || relators.contains(l), "rule {} is too long", ws(l));
    }
}

#[test]
fn completed_systems_are_complete() {
    for n in [5u32, 6, 7] {
        let rw = RewriteSystem::new(n, 80);
        assert!(rw.is_complete(), "n={n}: completion left the rules incomplete");
    }
}

#[test]
fn truncated_completion_is_not_complete() {
    let rw = RewriteSystem::new(5, 6);
    assert!(!rw.is_complete());
}

#[test]
fn completed_right_hand_sides_are_irreducible() {
    for n in [5u32, 6, 7] {
        let rw = RewriteSystem::new(n, 80);
        for (_, r) in &rw.rules {
            assert!(!rw.rules.iter().any(|(l, _)| occurs_in(l, r)), "n={n}: {} is rewritten", ws(r));
        }
    }
}
