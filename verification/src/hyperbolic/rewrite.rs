//! Confluent rewrite engine for {4,q} hyperbolic tilings over the turtle
//! alphabet: `a` moves forward and flips, `B` turns left, `b` turns right.
//! Rewriting with the rules of a tiling reduces a word to its canonical form.

use vstd::prelude::*;
use vstd::string::StringSliceAdditionalSpecFns;
use std::cmp::Ordering;
use crate::hyperbolic::words::{
    Rules, occurs_at, splice, rewrites_at, convertible, irreducible, rank_bounded, lex_lt_at,
    shortlex_lt, oriented, word_value, lemma_conv_refl, lemma_conv_from_rewrite,
    lemma_conv_trans, lemma_rewrite_decreases, lemma_shortlex_total, copy_word, splice_exec, words_equal,
    reduces_to, one_step, lemma_reduces_refl, lemma_reduces_step,
};
use crate::hyperbolic::completion::{
    overlaps, cp_left, cp_right, inclusion_at, incl_right, joins, locally_joinable, normal_form_of,
    lemma_joins_same_normal_form, lemma_unique_normal_form,
};
use crate::hyperbolic::knuth_bendix::{windows_equal, concat_parts};

verus! {

/// Move forward and flip.
pub const A: u8 = 0;

/// Turn left.
pub const B: u8 = 1;

/// Turn right (`b`, the inverse of `B`).
pub const B_INV: u8 = 2;

/// A word in the turtle alphabet.
pub type Word = Vec<u8>;

/// A rewrite rule: replace `lhs` with `rhs` wherever found.
#[derive(Clone, Debug)]
pub struct RewriteRule {
    pub lhs: Vec<u8>,
    pub rhs: Vec<u8>,
}

/// Shortlex rank of a turtle letter: b < B < a.
pub open spec fn turtle_rank(c: u8) -> nat {
    if c == A {
        2
    } else if c == B {
        1
    } else if c == B_INV {
        0
    } else {
        255
    }
}

pub open spec fn turtle_rank_fn() -> spec_fn(u8) -> nat {
    |c: u8| turtle_rank(c)
}

/// Every letter is one of a, B, b.
pub open spec fn is_turtle_word(w: Seq<u8>) -> bool {
    forall|i: int| 0 <= i < w.len() ==> #[trigger] w[i] < 3
}

/// A list of rewrite rules as plain values.
pub open spec fn rule_list_view(rules: Seq<RewriteRule>) -> Rules {
    Seq::new(rules.len(), |k: int| (rules[k].lhs@, rules[k].rhs@))
}

/// The rules can drive a reduction: each rule lowers the word in shortlex order.
pub open spec fn rules_terminating(rules: Seq<RewriteRule>) -> bool {
    oriented(turtle_rank_fn(), rule_list_view(rules))
}

pub(crate) proof fn lemma_turtle_rank_bounded()
    ensures
        rank_bounded(turtle_rank_fn()),
{
}

/// The letter code of a turtle letter character.
pub open spec fn letter_code(c: u8) -> u8 {
    if c == 97 || c == 65 {
        A
    } else if c == 66 {
        B
    } else {
        B_INV
    }
}

pub open spec fn is_letter_char(c: u8) -> bool {
    c == 97 || c == 65 || c == 66 || c == 98
}

/// Parse a letter string (a, A, B, b) into the byte encoding.
fn parse_letters(s: &[u8]) -> (r: Vec<u8>)
    requires
        forall|i: int| 0 <= i < s@.len() ==> is_letter_char(#[trigger] s@[i]),
    ensures
        r@ == s@.map_values(|c: u8| letter_code(c)),
{
    let mut r: Vec<u8> = Vec::new();
    let mut i: usize = 0;
    while i < s.len()
        invariant
            i <= s.len(),
            r@ == s@.subrange(0, i as int).map_values(|c: u8| letter_code(c)),
        decreases s.len() - i,
    {
        let c = s[i];
        let code = if c == 97 || c == 65 {
            A
        } else if c == 66 {
            B
        } else {
            B_INV
        };
        r.push(code);
        i = i + 1;
        assert(r@ =~= s@.subrange(0, i as int).map_values(|c: u8| letter_code(c)));
    }
    assert(s@.subrange(0, s@.len() as int) =~= s@);
    r
}

/// Length of the longest left-hand side.
fn max_lhs_len(rules: &[RewriteRule]) -> (m: usize)
    ensures
        forall|k: int| 0 <= k < rules@.len() ==> #[trigger] rules@[k].lhs@.len() <= m,
{
    let mut m: usize = 0;
    let mut k: usize = 0;
    while k < rules.len()
        invariant
            k <= rules.len(),
            forall|j: int| 0 <= j < k ==> #[trigger] rules@[j].lhs@.len() <= m,
        decreases rules.len() - k,
    {
        if rules[k].lhs.len() > m {
            m = rules[k].lhs.len();
        }
        k = k + 1;
    }
    m
}

/// The first rule (in list order) whose left-hand side occurs at `pos`.
fn find_rule_at(word: &[u8], rules: &[RewriteRule], pos: usize) -> (r: Option<usize>)
    ensures
        match r {
            Some(k) => k < rules@.len() && occurs_at(rule_list_view(rules@)[k as int].0, word@, pos as int)
                && forall|m: int| 0 <= m < k ==> !#[trigger] occurs_at(rule_list_view(rules@)[m].0, word@, pos as int),
            None => forall|m: int| 0 <= m < rules@.len() ==> !#[trigger] occurs_at(rule_list_view(rules@)[m].0, word@, pos as int),
        },
{
    let ghost rv = rule_list_view(rules@);
    let mut k: usize = 0;
    while k < rules.len()
        invariant
            rv == rule_list_view(rules@),
            k <= rules.len(),
            forall|m: int| 0 <= m < k ==> !#[trigger] occurs_at(rv[m].0, word@, pos as int),
        decreases rules.len() - k,
    {
        assert(rv[k as int].0 == rules@[k as int].lhs@);
        if crate::hyperbolic::words::occurs_at_exec(word, &rules[k].lhs, pos) {
            return Some(k);
        }
        k = k + 1;
    }
    None
}

/// After rewriting at `p`, no rule occurs before `p - (max_lhs - 1)`.
proof fn lemma_prefix_clean(rv: Rules, old_w: Seq<u8>, new_w: Seq<u8>, p: int, new_pos: int, max_lhs: int)
    requires
        0 <= new_pos <= p,
        new_pos == 0 || new_pos == p - (max_lhs - 1),
        p <= old_w.len(),
        p <= new_w.len(),
        old_w.subrange(0, p) == new_w.subrange(0, p),
        forall|k: int| 0 <= k < rv.len() ==> #[trigger] rv[k].0.len() <= max_lhs,
        forall|k: int, q: int| 0 <= k < rv.len() && 0 <= q < p ==> !#[trigger] occurs_at(rv[k].0, old_w, q),
    ensures
        forall|k: int, q: int| 0 <= k < rv.len() && 0 <= q < new_pos ==> !#[trigger] occurs_at(rv[k].0, new_w, q),
{
    assert forall|k: int, q: int| 0 <= k < rv.len() && 0 <= q < new_pos implies !#[trigger] occurs_at(rv[k].0, new_w, q) by {
        let l = rv[k].0;
        if occurs_at(l, new_w, q) {
            assert(q + l.len() <= p);
            assert(new_w.subrange(q, q + l.len()) =~= old_w.subrange(q, q + l.len())) by {
                assert forall|t: int| 0 <= t < l.len() implies #[trigger] new_w.subrange(q, q + l.len())[t] == old_w.subrange(q, q + l.len())[t] by {
                    assert(new_w[q + t] == new_w.subrange(0, p)[q + t]);
                    assert(old_w[q + t] == old_w.subrange(0, p)[q + t]);
                }
            }
            assert(occurs_at(l, old_w, q));
        }
    }
}

/// Reduce a word by repeatedly applying rewrite rules until no rule matches.
///
/// Scans left to right for the first position where some rule's left-hand
/// side occurs (rules tried in list order), replaces it with the right-hand
/// side, then backs up the scan position by the longest left-hand side
/// minus one to catch cascading rewrites.
pub fn reduce(word: &mut Word, rules: &[RewriteRule])
    requires
        rules_terminating(rules@),
    ensures
        convertible(rule_list_view(rules@), old(word)@, final(word)@),
        reduces_to(rule_list_view(rules@), old(word)@, final(word)@),
        final(word)@.len() <= old(word)@.len(),
        irreducible(rule_list_view(rules@), final(word)@),
        irreducible(rule_list_view(rules@), old(word)@) ==> final(word)@ == old(word)@,
        is_turtle_word(old(word)@) && (forall|k: int| 0 <= k < rules@.len() ==> is_turtle_word(#[trigger] rules@[k].rhs@))
            ==> is_turtle_word(final(word)@),
{
    let ghost rv = rule_list_view(rules@);
    let ghost orig = word@;
    let max_lhs = max_lhs_len(rules);
    proof {
        lemma_turtle_rank_bounded();
        lemma_conv_refl(rv, orig);
        lemma_reduces_refl(rv, orig);
        assert forall|k: int| 0 <= k < rv.len() implies #[trigger] rv[k].0.len() <= max_lhs && rv[k].0.len() >= 1 by {
            assert(rv[k].0 == rules@[k].lhs@);
            assert(shortlex_lt(turtle_rank_fn(), rv[k].1, rv[k].0));
        }
    }
    let mut pos: usize = 0;
    while pos < word.len()
        invariant
            rv == rule_list_view(rules@),
            oriented(turtle_rank_fn(), rv),
            rank_bounded(turtle_rank_fn()),
            forall|k: int| 0 <= k < rv.len() ==> #[trigger] rv[k].0.len() <= max_lhs && rv[k].0.len() >= 1,
            pos <= word@.len(),
            forall|k: int, q: int| 0 <= k < rv.len() && 0 <= q < pos ==> !#[trigger] occurs_at(rv[k].0, word@, q),
            convertible(rv, orig, word@),
            reduces_to(rv, orig, word@),
            word@.len() <= orig.len(),
            irreducible(rv, orig) ==> word@ == orig,
            is_turtle_word(orig) && (forall|k: int| 0 <= k < rules@.len() ==> is_turtle_word(#[trigger] rules@[k].rhs@))
                ==> is_turtle_word(word@),
        decreases word@.len(), word_value(turtle_rank_fn(), word@), word@.len() - pos,
    {
        match find_rule_at(word, rules, pos) {
            Some(k) => {
                let lhs_len = rules[k].lhs.len();
                assert(rv[k as int] == (rules@[k as int].lhs@, rules@[k as int].rhs@));
                let next = splice_exec(word, pos, lhs_len, &rules[k].rhs);
                let new_pos = if pos >= max_lhs - 1 { pos - (max_lhs - 1) } else { 0 };
                proof {
                    assert(rewrites_at(rv, k as int, word@, next@, pos as int));
                    lemma_conv_from_rewrite(rv, k as int, word@, next@, pos as int);
                    lemma_conv_trans(rv, orig, word@, next@);
                    lemma_rewrite_decreases(turtle_rank_fn(), rv, k as int, word@, next@, pos as int);
                    assert(one_step(rv, word@, next@));
                    lemma_reduces_step(rv, orig, word@, next@);
                    assert(word@.subrange(0, pos as int) =~= next@.subrange(0, pos as int));
                    lemma_prefix_clean(rv, word@, next@, pos as int, new_pos as int, max_lhs as int);
                    if irreducible(rv, orig) {
                        assert(!occurs_at(rv[k as int].0, word@, pos as int));
                    }
                    if is_turtle_word(orig) && (forall|k: int| 0 <= k < rules@.len() ==> is_turtle_word(#[trigger] rules@[k].rhs@)) {
                        assert(is_turtle_word(rules@[k as int].rhs@));
                        assert forall|i: int| 0 <= i < next@.len() implies #[trigger] next@[i] < 3 by {
                            if i < pos {
                                assert(next@[i] == word@[i]);
                            } else if i < pos + rules@[k as int].rhs@.len() {
                                assert(next@[i] == rules@[k as int].rhs@[i - pos]);
                            } else {
                                assert(next@[i] == word@[i - rules@[k as int].rhs@.len() + lhs_len]);
                            }
                        }
                    }
                }
                *word = next;
                pos = new_pos;
            },
            None => {
                pos = pos + 1;
            },
        }
    }
    proof {
        assert forall|k: int, q: int| 0 <= k < rv.len() implies !#[trigger] occurs_at(rv[k].0, word@, q) by {
            if q >= pos {
                assert(rv[k].0.len() >= 1);
            }
        }
    }
}

/// Reduce a word, returning the result.
pub fn reduced(word: &[u8], rules: &[RewriteRule]) -> (r: Word)
    requires
        rules_terminating(rules@),
    ensures
        convertible(rule_list_view(rules@), word@, r@),
        reduces_to(rule_list_view(rules@), word@, r@),
        r@.len() <= word@.len(),
        irreducible(rule_list_view(rules@), r@),
        irreducible(rule_list_view(rules@), word@) ==> r@ == word@,
        is_turtle_word(word@) && (forall|k: int| 0 <= k < rules@.len() ==> is_turtle_word(#[trigger] rules@[k].rhs@))
            ==> is_turtle_word(r@),
{
    let mut w = copy_word(word);
    reduce(&mut w, rules);
    w
}

/// With rules that join every overlap, each word has one normal form: any
/// two forward rewrites of it to irreducible words agree, so `reduce` and
/// `reduced` leave the same word.
pub proof fn lemma_reduced_canonical(rules: Seq<RewriteRule>, w: Seq<u8>, a: Seq<u8>, b: Seq<u8>)
    requires
        rules_terminating(rules),
        locally_joinable(rule_list_view(rules)),
        normal_form_of(rule_list_view(rules), w, a),
        normal_form_of(rule_list_view(rules), w, b),
    ensures
        a == b,
{
    lemma_turtle_rank_bounded();
    lemma_unique_normal_form(turtle_rank_fn(), rule_list_view(rules), w, a, b);
}

/// Whether the rules join every overlap and inclusion of left-hand sides:
/// each, rewritten either way, reduces to one word.
pub fn is_confluent(rules: &[RewriteRule]) -> (r: bool)
    requires
        rules_terminating(rules@),
    ensures
        r == locally_joinable(rule_list_view(rules@)),
{
    let ghost rs = rule_list_view(rules@);
    let count = rules.len();
    let mut i: usize = 0;
    while i < count
        invariant
            count == rules@.len(),
            rs == rule_list_view(rules@),
            rules_terminating(rules@),
            i <= count,
            forall|x: int, y: int, k: int| #[trigger] overlaps(rs, x, y, k) && x < i ==> joins(
                rs,
                cp_left(rs, x, y, k),
                cp_right(rs, x, y, k),
            ),
            forall|x: int, y: int, q: int| #[trigger] inclusion_at(rs, x, y, q) && x < i ==> joins(
                rs,
                rs[x].1,
                incl_right(rs, x, y, q),
            ),
        decreases count - i,
    {
        let mut j: usize = 0;
        while j < count
            invariant
                count == rules@.len(),
                rs == rule_list_view(rules@),
                rules_terminating(rules@),
                i < count,
                j <= count,
                forall|x: int, y: int, k: int| #[trigger] overlaps(rs, x, y, k) && (x < i || (x == i && y < j))
                    ==> joins(rs, cp_left(rs, x, y, k), cp_right(rs, x, y, k)),
                forall|x: int, y: int, q: int| #[trigger] inclusion_at(rs, x, y, q) && (x < i || (x == i && y < j))
                    ==> joins(rs, rs[x].1, incl_right(rs, x, y, q)),
            decreases count - j,
        {
            if !rule_pair_joins(rules, i, j) {
                return false;
            }
            j = j + 1;
        }
        i = i + 1;
    }
    true
}

/// Whether every overlap of rule `i`'s left-hand side with rule `j`'s, and
/// every occurrence of rule `j`'s inside rule `i`'s, rewritten either way,
/// reduces to one word. When not, the rules do not join all overlaps.
fn rule_pair_joins(rules: &[RewriteRule], i: usize, j: usize) -> (r: bool)
    requires
        rules_terminating(rules@),
        i < rules@.len(),
        j < rules@.len(),
    ensures
        r ==> forall|k: int| #[trigger] overlaps(rule_list_view(rules@), i as int, j as int, k) ==> joins(
            rule_list_view(rules@),
            cp_left(rule_list_view(rules@), i as int, j as int, k),
            cp_right(rule_list_view(rules@), i as int, j as int, k),
        ),
        r ==> forall|q: int| #[trigger] inclusion_at(rule_list_view(rules@), i as int, j as int, q) ==> joins(
            rule_list_view(rules@),
            rule_list_view(rules@)[i as int].1,
            incl_right(rule_list_view(rules@), i as int, j as int, q),
        ),
        !r ==> !locally_joinable(rule_list_view(rules@)),
{
    let ghost rs = rule_list_view(rules@);
    let l1 = &rules[i].lhs;
    let r1 = &rules[i].rhs;
    let l2 = &rules[j].lhs;
    let r2 = &rules[j].rhs;
    proof {
        lemma_turtle_rank_bounded();
        assert(rs[i as int] == (l1@, r1@));
        assert(rs[j as int] == (l2@, r2@));
        assert(r1@.subrange(0, r1@.len() as int) =~= r1@);
        assert(r2@.subrange(0, r2@.len() as int) =~= r2@);
        assert(l2@.subrange(0, l2@.len() as int) =~= l2@);
    }
    let max_k = if l1.len() < l2.len() {
        l1.len()
    } else {
        l2.len()
    };
    let mut kk: usize = 0;
    while kk < max_k
        invariant
            rs == rule_list_view(rules@),
            rules_terminating(rules@),
            rank_bounded(turtle_rank_fn()),
            i < rs.len(),
            j < rs.len(),
            rs[i as int] == (l1@, r1@),
            rs[j as int] == (l2@, r2@),
            r1@.subrange(0, r1@.len() as int) == r1@,
            r2@.subrange(0, r2@.len() as int) == r2@,
            max_k <= l1.len(),
            max_k <= l2.len(),
            max_k == l1.len() || max_k == l2.len(),
            kk <= max_k,
            forall|k: int| #[trigger] overlaps(rs, i as int, j as int, k) && k <= kk ==> joins(
                rs,
                cp_left(rs, i as int, j as int, k),
                cp_right(rs, i as int, j as int, k),
            ),
        decreases max_k - kk,
    {
        let k = kk + 1;
        if windows_equal(l1, l1.len() - k, l2, 0, k) {
            let cp1 = concat_parts(r1, 0, r1.len(), l2, k, l2.len());
            let cp2 = concat_parts(l1, 0, l1.len() - k, r2, 0, r2.len());
            assert(overlaps(rs, i as int, j as int, k as int));
            assert(cp1@ == cp_left(rs, i as int, j as int, k as int));
            assert(cp2@ == cp_right(rs, i as int, j as int, k as int));
            let a = reduced(&cp1, rules);
            let b = reduced(&cp2, rules);
            if !words_equal(&a, &b) {
                proof {
                    if locally_joinable(rs) {
                        lemma_joins_same_normal_form(turtle_rank_fn(), rs, cp1@, cp2@, a@, b@);
                    }
                }
                return false;
            }
            assert(reduces_to(rs, cp1@, a@) && reduces_to(rs, cp2@, a@));
        }
        kk = kk + 1;
    }
    assert forall|k: int| #[trigger] overlaps(rs, i as int, j as int, k) implies joins(
        rs,
        cp_left(rs, i as int, j as int, k),
        cp_right(rs, i as int, j as int, k),
    ) by {
        assert(k <= max_k);
    }
    proof {
        assert(shortlex_lt(turtle_rank_fn(), rs[j as int].1, rs[j as int].0));
        if r2@.len() == l2@.len() {
            let t = choose|t: int| lex_lt_at(turtle_rank_fn(), r2@, l2@, t);
        }
    }
    if l2.len() <= l1.len() {
        let top = l1.len() - l2.len();
        let mut q: usize = 0;
        while q <= top
            invariant
                rs == rule_list_view(rules@),
                rules_terminating(rules@),
                rank_bounded(turtle_rank_fn()),
                i < rs.len(),
                j < rs.len(),
                rs[i as int] == (l1@, r1@),
                rs[j as int] == (l2@, r2@),
                l2@.subrange(0, l2@.len() as int) == l2@,
                top == l1.len() - l2.len(),
                top < l1.len(),
                q <= top + 1,
                forall|k: int| #[trigger] overlaps(rs, i as int, j as int, k) ==> joins(
                    rs,
                    cp_left(rs, i as int, j as int, k),
                    cp_right(rs, i as int, j as int, k),
                ),
                forall|qq: int| #[trigger] inclusion_at(rs, i as int, j as int, qq) && qq < q ==> joins(
                    rs,
                    rs[i as int].1,
                    incl_right(rs, i as int, j as int, qq),
                ),
            decreases top + 1 - q,
        {
            if windows_equal(l1, q, l2, 0, l2.len()) {
                assert(inclusion_at(rs, i as int, j as int, q as int));
                let m = splice_exec(l1, q, l2.len(), r2);
                let a = reduced(r1, rules);
                let b = reduced(&m, rules);
                if !words_equal(&a, &b) {
                    proof {
                        if locally_joinable(rs) {
                            lemma_joins_same_normal_form(turtle_rank_fn(), rs, r1@, m@, a@, b@);
                        }
                    }
                    return false;
                }
                assert(reduces_to(rs, r1@, a@) && reduces_to(rs, m@, a@));
            }
            q = q + 1;
        }
    }
    true
}

/// Shortlex comparison for words: shorter words first, equal lengths
/// compared letter by letter with b < B < a.
pub fn shortlex_cmp(a: &[u8], b: &[u8]) -> (r: Ordering)
    requires
        a@.len() != b@.len() || (is_turtle_word(a@) && is_turtle_word(b@)),
    ensures
        (r == Ordering::Less) == shortlex_lt(turtle_rank_fn(), a@, b@),
        (r == Ordering::Greater) == shortlex_lt(turtle_rank_fn(), b@, a@),
        (r == Ordering::Equal) == (a@ == b@),
{
    let c = compare_words(a, b);
    if c < 0 {
        Ordering::Less
    } else if c > 0 {
        Ordering::Greater
    } else {
        Ordering::Equal
    }
}

/// Whether `a` comes strictly before `b` in shortlex order.
pub(crate) fn shortlex_less(a: &[u8], b: &[u8]) -> (r: bool)
    requires
        is_turtle_word(a@),
        is_turtle_word(b@),
    ensures
        r == shortlex_lt(turtle_rank_fn(), a@, b@),
{
    compare_words(a, b) == -1
}

/// Three-way shortlex comparison as -1, 0 or 1.
fn compare_words(a: &[u8], b: &[u8]) -> (r: i8)
    requires
        a@.len() != b@.len() || (is_turtle_word(a@) && is_turtle_word(b@)),
    ensures
        -1 <= r <= 1,
        (r == -1) == shortlex_lt(turtle_rank_fn(), a@, b@),
        (r == 1) == shortlex_lt(turtle_rank_fn(), b@, a@),
        (r == 0) == (a@ == b@),
{
    if a.len() < b.len() {
        return -1;
    }
    if a.len() > b.len() {
        return 1;
    }
    let mut i: usize = 0;
    while i < a.len()
        invariant
            a.len() == b.len(),
            i <= a.len(),
            is_turtle_word(a@),
            is_turtle_word(b@),
            forall|j: int| 0 <= j < i ==> #[trigger] a@[j] == b@[j],
        decreases a.len() - i,
    {
        let x = sort_key(a[i]);
        let y = sort_key(b[i]);
        if x < y {
            assert(lex_lt_at(turtle_rank_fn(), a@, b@, i as int));
            proof { lemma_not_lt_after(a@, b@, i as int); }
            assert(a@[i as int] != b@[i as int]);
            return -1;
        }
        if x > y {
            assert(lex_lt_at(turtle_rank_fn(), b@, a@, i as int));
            proof { lemma_not_lt_after(b@, a@, i as int); }
            assert(a@[i as int] != b@[i as int]);
            return 1;
        }
        assert(a@[i as int] == b@[i as int]);
        i = i + 1;
    }
    assert(a@ =~= b@);
    proof { lemma_no_lex_lt_equal(a@); }
    0
}

proof fn lemma_not_lt_after(u: Seq<u8>, v: Seq<u8>, i: int)
    requires
        lex_lt_at(turtle_rank_fn(), u, v, i),
        u.len() == v.len(),
    ensures
        !shortlex_lt(turtle_rank_fn(), v, u),
{
    assert forall|k: int| !lex_lt_at(turtle_rank_fn(), v, u, k) by {
        if 0 <= k < v.len() && lex_lt_at(turtle_rank_fn(), v, u, k) {
            if k < i {
                assert(turtle_rank(u[k]) == turtle_rank(v[k]));
            } else if k > i {
                assert(turtle_rank(v[i]) == turtle_rank(u[i]));
            }
        }
    }
}

proof fn lemma_no_lex_lt_equal(u: Seq<u8>)
    ensures
        !shortlex_lt(turtle_rank_fn(), u, u),
{
    assert forall|k: int| !lex_lt_at(turtle_rank_fn(), u, u, k) by {}
}

/// Sort key of a turtle letter: b(2) -> 0, B(1) -> 1, a(0) -> 2.
fn sort_key(letter: u8) -> (r: u8)
    requires
        letter < 3,
    ensures
        r == turtle_rank(letter),
{
    if letter == 0 {
        2
    } else if letter == 1 {
        1
    } else {
        0
    }
}

/// Shortlex order of turtle words is transitive.
pub proof fn lemma_shortlex_trans(x: Seq<u8>, y: Seq<u8>, z: Seq<u8>)
    requires
        shortlex_lt(turtle_rank_fn(), x, y),
        shortlex_lt(turtle_rank_fn(), y, z),
    ensures
        shortlex_lt(turtle_rank_fn(), x, z),
{
    if x.len() == y.len() && y.len() == z.len() {
        let i = choose|i: int| lex_lt_at(turtle_rank_fn(), x, y, i);
        let j = choose|j: int| lex_lt_at(turtle_rank_fn(), y, z, j);
        let k = if i < j { i } else { j };
        assert forall|t: int| 0 <= t < k implies turtle_rank_fn()(#[trigger] x[t]) == turtle_rank_fn()(z[t]) by {
            assert(turtle_rank(x[t]) == turtle_rank(y[t]));
            assert(turtle_rank(y[t]) == turtle_rank(z[t]));
        }
        if i < j {
            assert(turtle_rank(y[i]) == turtle_rank(z[i]));
        } else if j < i {
            assert(turtle_rank(x[j]) == turtle_rank(y[j]));
        }
        assert(lex_lt_at(turtle_rank_fn(), x, z, k));
    }
}

/// Shortlex order is irreflexive.
pub proof fn lemma_shortlex_irrefl(x: Seq<u8>)
    ensures
        !shortlex_lt(turtle_rank_fn(), x, x),
{
    lemma_no_lex_lt_equal(x);
}

/// Two different turtle words are comparable.
pub proof fn lemma_turtle_total(u: Seq<u8>, v: Seq<u8>)
    requires
        is_turtle_word(u),
        is_turtle_word(v),
        u != v,
    ensures
        shortlex_lt(turtle_rank_fn(), u, v) || shortlex_lt(turtle_rank_fn(), v, u),
{
    if u.len() == v.len() {
        assert forall|j: int| 0 <= j < u.len() && u[j] != v[j] implies turtle_rank(#[trigger] u[j]) != turtle_rank(v[j]) by {
            assert(u[j] < 3 && v[j] < 3);
        }
        lemma_shortlex_total(turtle_rank_fn(), u, v);
    }
}

/// The display character of a letter.
pub open spec fn letter_char(c: u8) -> char {
    if c == A {
        'a'
    } else if c == B {
        'B'
    } else if c == B_INV {
        'b'
    } else {
        '?'
    }
}

/// The text of a word: `e` for the empty word, else its letters.
pub open spec fn word_text(w: Seq<u8>) -> Seq<char> {
    if w.len() == 0 {
        seq!['e']
    } else {
        w.map_values(|c: u8| letter_char(c))
    }
}

/// The word read from the bytes of a text: empty for `e` or no text, else
/// the letters.
pub open spec fn text_word(bytes: Seq<u8>) -> Seq<u8> {
    if is_identity_text(bytes) {
        Seq::<u8>::empty()
    } else {
        bytes.map_values(|c: u8| letter_code(c))
    }
}

/// Convert a word to its human-readable string form (`e` for the empty word).
pub fn word_to_string(word: &[u8]) -> (r: String)
    ensures
        word@.len() == 0 ==> r@ == "e"@,
        word@.len() > 0 ==> r@ == word@.map_values(|c: u8| letter_char(c)),
        r@ == word_text(word@),
{
    if word.len() == 0 {
        proof {
            reveal_strlit("e");
        }
        return "e".to_owned();
    }
    let mut s = String::new();
    let mut i: usize = 0;
    while i < word.len()
        invariant
            i <= word.len(),
            s@ == word@.subrange(0, i as int).map_values(|c: u8| letter_char(c)),
        decreases word.len() - i,
    {
        let c = word[i];
        let ch = if c == A {
            'a'
        } else if c == B {
            'B'
        } else if c == B_INV {
            'b'
        } else {
            '?'
        };
        push_char(&mut s, ch);
        i = i + 1;
        assert(s@ =~= word@.subrange(0, i as int).map_values(|c: u8| letter_char(c)));
    }
    assert(word@.subrange(0, word@.len() as int) =~= word@);
    s
}

/// The bytes of `e`.
pub open spec fn is_identity_text(bytes: Seq<u8>) -> bool {
    bytes.len() == 0 || bytes == seq![101u8]
}

/// Parse a string into a word. `e` or the empty string give the empty word.
pub fn string_to_word(s: &str) -> (r: Word)
    requires
        is_identity_text(s.spec_bytes()) || forall|i: int|
            0 <= i < s.spec_bytes().len() ==> is_letter_char(#[trigger] s.spec_bytes()[i]),
    ensures
        is_identity_text(s.spec_bytes()) ==> r@.len() == 0,
        !is_identity_text(s.spec_bytes()) ==> r@ == s.spec_bytes().map_values(|c: u8| letter_code(c)),
        r@ == text_word(s.spec_bytes()),
{
    let bytes = s.as_bytes();
    if bytes.len() == 0 || (bytes.len() == 1 && bytes[0] == 101) {
        proof {
            if bytes@.len() == 1 {
                assert(bytes@ =~= seq![101u8]);
            }
        }
        return Vec::new();
    }
    proof {
        if bytes@.len() == 1 {
            assert(bytes@ != seq![101u8]);
        }
    }
    parse_letters(bytes)
}

/// A turtle word's text, read back, gives the word.
pub proof fn lemma_word_text_round_trip(w: Seq<u8>)
    requires
        is_turtle_word(w),
    ensures
        text_word(word_text(w).map_values(|c: char| c as u8)) == w,
{
    let t = word_text(w).map_values(|c: char| c as u8);
    if w.len() == 0 {
        assert(t =~= seq![101u8]);
    } else {
        assert(w[0] < 3);
        assert(t[0] != 101u8);
        assert(text_word(t) =~= w) by {
            assert forall|i: int| 0 <= i < w.len() implies text_word(t)[i] == w[i] by {
                assert(w[i] < 3);
            }
        }
    }
}

/// Text over a, B, b (or `e`), read as a word and written back, gives the
/// text.
pub proof fn lemma_text_word_round_trip(s: &str)
    requires
        s@.len() > 0,
        s@ == seq!['e'] || forall|i: int| 0 <= i < s@.len() ==> (#[trigger] s@[i] == 'a' || s@[i] == 'B' || s@[i] == 'b'),
    ensures
        word_text(text_word(s.spec_bytes())) == s@,
{
    assert(vstd::string::is_ascii(s)) by {
        assert forall|i: int| 0 <= i < s@.len() implies '\0' <= #[trigger] s@[i] <= '\u{7f}' by {}
    }
    vstd::string::is_ascii_spec_bytes(s);
    let b = s.spec_bytes();
    if s@ == seq!['e'] {
        assert(b =~= seq![101u8]);
    } else {
        assert(s@[0] != 'e');
        assert(b[0] != 101u8);
        assert(word_text(text_word(b)) =~= s@) by {
            assert forall|i: int| 0 <= i < s@.len() implies word_text(text_word(b))[i] == s@[i] by {
                assert(b[i] == s@[i] as u8);
            }
        }
    }
}

/// The first position at or after `start` that holds `stop`, or the end of
/// `b`.
pub open spec fn stop_pos(b: Seq<u8>, start: int, stop: u8) -> int
    decreases b.len() - start,
{
    if start >= b.len() {
        start
    } else if b[start] == stop {
        start
    } else {
        stop_pos(b, start + 1, stop)
    }
}

/// The position just past the first `stop` at or after `start`, or the end
/// of `b` where there is none.
pub open spec fn past_stop(b: Seq<u8>, start: int, stop: u8) -> int {
    let p = stop_pos(b, start, stop);
    if p < b.len() {
        p + 1
    } else {
        p
    }
}

/// A stop position lies between the start and the end of the text.
pub proof fn lemma_stop_pos_bounds(b: Seq<u8>, start: int, stop: u8)
    ensures
        stop_pos(b, start, stop) >= start,
        start <= b.len() ==> stop_pos(b, start, stop) <= b.len(),
        past_stop(b, start, stop) >= start,
        start <= b.len() ==> past_stop(b, start, stop) <= b.len(),
    decreases b.len() - start,
{
    if start < b.len() && b[start] != stop {
        lemma_stop_pos_bounds(b, start + 1, stop);
    }
}

/// Every byte of `s` is one of the letters a, A, B, b.
pub open spec fn all_letters(s: Seq<u8>) -> bool {
    forall|i: int| 0 <= i < s.len() ==> is_letter_char(#[trigger] s[i])
}

/// The letter codes of the letters in `s`.
pub open spec fn codes(s: Seq<u8>) -> Seq<u8> {
    s.map_values(|c: u8| letter_code(c))
}

/// The rules that a rule file lists from position `i` on, in order, as
/// (left-hand side, right-hand side) letter codes: each `(` opens a pair
/// `'lhs', 'rhs'` closed by `)`, text outside pairs is skipped, and the
/// pair whose left-hand side is `A` is left out. `None` where a `(` is not
/// followed by a quote or a pair holds a byte that is no letter.
pub open spec fn listed_rules(b: Seq<u8>, i: int) -> Option<Seq<(Seq<u8>, Seq<u8>)>>
    decreases b.len() - i,
{
    if i < 0 || i >= b.len() {
        Some(Seq::empty())
    } else if b[i] != 40 {
        listed_rules(b, i + 1)
    } else if i + 1 >= b.len() || b[i + 1] != 39 {
        None
    } else {
        let ls = i + 2;
        let le = stop_pos(b, ls, 39);
        let rs = past_stop(b, past_stop(b, ls, 39), 39);
        let re = stop_pos(b, rs, 39);
        let next = past_stop(b, past_stop(b, rs, 39), 41);
        proof {
            lemma_stop_pos_bounds(b, ls, 39);
            lemma_stop_pos_bounds(b, past_stop(b, ls, 39), 39);
            lemma_stop_pos_bounds(b, rs, 39);
            lemma_stop_pos_bounds(b, past_stop(b, rs, 39), 41);
        }
        let lhs = b.subrange(ls, le);
        let rhs = b.subrange(rs, re);
        if lhs == seq![65u8] {
            listed_rules(b, next)
        } else if !all_letters(lhs) || !all_letters(rhs) {
            None
        } else {
            match listed_rules(b, next) {
                Some(rest) => Some(seq![(codes(lhs), codes(rhs))] + rest),
                None => None,
            }
        }
    }
}

/// The (left-hand side, right-hand side) of each rule.
pub open spec fn rule_views(rules: Seq<RewriteRule>) -> Seq<(Seq<u8>, Seq<u8>)> {
    rules.map_values(|r: RewriteRule| (r.lhs@, r.rhs@))
}

/// `s` with `x` placed after every leading rule whose left-hand side is at
/// least as long as that of `x`.
pub open spec fn insert_by_len(s: Seq<(Seq<u8>, Seq<u8>)>, x: (Seq<u8>, Seq<u8>)) -> Seq<(Seq<u8>, Seq<u8>)>
    decreases s.len(),
{
    if s.len() == 0 {
        seq![x]
    } else if s[0].0.len() >= x.0.len() {
        seq![s[0]] + insert_by_len(s.drop_first(), x)
    } else {
        seq![x] + s
    }
}

/// The rules ordered longest left-hand side first; rules with left-hand
/// sides of equal length keep their order.
pub open spec fn longest_first(s: Seq<(Seq<u8>, Seq<u8>)>) -> Seq<(Seq<u8>, Seq<u8>)>
    decreases s.len(),
{
    if s.len() == 0 {
        s
    } else {
        insert_by_len(longest_first(s.drop_last()), s.last())
    }
}

proof fn lemma_insert_by_len_at(s: Seq<(Seq<u8>, Seq<u8>)>, x: (Seq<u8>, Seq<u8>), p: int)
    requires
        0 <= p <= s.len(),
        forall|q: int| 0 <= q < p ==> (#[trigger] s[q]).0.len() >= x.0.len(),
        p < s.len() ==> s[p].0.len() < x.0.len(),
    ensures
        insert_by_len(s, x) == s.take(p) + seq![x] + s.skip(p),
    decreases p,
{
    if p == 0 {
        assert(s.take(0) + seq![x] + s.skip(0) =~= seq![x] + s);
        if s.len() == 0 {
            assert(seq![x] + s =~= seq![x]);
        }
    } else {
        let t = s.drop_first();
        assert forall|q: int| 0 <= q < p - 1 implies (#[trigger] t[q]).0.len() >= x.0.len() by {
            assert(t[q] == s[q + 1]);
        }
        lemma_insert_by_len_at(t, x, p - 1);
        assert(s.take(p) + seq![x] + s.skip(p) =~= seq![s[0]] + (t.take(p - 1) + seq![x] + t.skip(p - 1)));
    }
}

/// `String::push`: appends the character to the end of the string.
#[verifier::external_body]
pub(crate) fn push_char(s: &mut String, c: char)
    ensures
        final(s)@ == old(s)@.push(c),
{
    s.push(c)
}

/// Parse the text of a rule file: a Python-style list of string pairs
/// `[('lhs', 'rhs'), ...]`. The pair whose left-hand side is `A` is
/// skipped; the rest are sorted longest left-hand side first (stably).
///
/// Returns `None` where the text does not have that shape or a rule
/// holds a letter other than a, A, B, b.
pub fn parse_rules(text: &str) -> (r: Option<Vec<RewriteRule>>)
    ensures
        match listed_rules(text.spec_bytes(), 0) {
            Some(ps) => r matches Some(rules) && rule_views(rules@) == longest_first(ps),
            None => r is None,
        },
        r matches Some(rules) ==> forall|x: int, y: int|
            0 <= x < y < rules@.len() ==> #[trigger] rules@[x].lhs@.len() >= #[trigger] rules@[y].lhs@.len(),
{
    let bytes = text.as_bytes();
    let ghost b = bytes@;
    let mut rules: Vec<RewriteRule> = Vec::new();
    let mut i: usize = 0;
    proof {
        match listed_rules(b, 0) {
            Some(rest) => {
                assert(rule_views(rules@) + rest =~= rest);
            },
            None => {},
        }
    }
    while i < bytes.len()
        invariant
            b == bytes@,
            b == text.spec_bytes(),
            i <= bytes.len(),
            match listed_rules(b, i as int) {
                Some(rest) => listed_rules(b, 0) == Some(rule_views(rules@) + rest),
                None => listed_rules(b, 0) is None,
            },
        decreases bytes.len() - i,
    {
        let ghost p = i as int;
        let c = bytes[i];
        i = i + 1;
        if c == 40 {
            // Expect a quote.
            if i >= bytes.len() || bytes[i] != 39 {
                return None;
            }
            i = i + 1;
            let (lhs_start, lhs_end, after_lhs) = take_until(bytes, i, 39);
            // Skip up to and including the next quote.
            let (_s, _e, after_sep) = take_until(bytes, after_lhs, 39);
            let (rhs_start, rhs_end, after_rhs) = take_until(bytes, after_sep, 39);
            // Skip to the closing parenthesis.
            let (_s2, _e2, after_close) = take_until(bytes, after_rhs, 41);
            i = after_close;
            let lhs_text = slice_bytes(bytes, lhs_start, lhs_end);
            let rhs_text = slice_bytes(bytes, rhs_start, rhs_end);
            if lhs_text.len() == 1 && lhs_text[0] == 65 {
                proof {
                    assert(lhs_text@ =~= seq![65u8]);
                }
                continue;
            }
            proof {
                if lhs_text@.len() == 1 {
                    assert(lhs_text@ != seq![65u8]);
                }
            }
            if !all_letter_chars(&lhs_text) || !all_letter_chars(&rhs_text) {
                return None;
            }
            let lhs = parse_letters(&lhs_text);
            let rhs = parse_letters(&rhs_text);
            let ghost before = rules@;
            rules.push(RewriteRule { lhs, rhs });
            proof {
                assert(rule_views(rules@) =~= rule_views(before).push((codes(lhs_text@), codes(rhs_text@))));
                match listed_rules(b, i as int) {
                    Some(rest) => {
                        assert(rule_views(before) + (seq![(codes(lhs_text@), codes(rhs_text@))] + rest)
                            =~= rule_views(rules@) + rest);
                    },
                    None => {},
                }
            }
        }
    }
    proof {
        assert(rule_views(rules@) + Seq::<(Seq<u8>, Seq<u8>)>::empty() =~= rule_views(rules@));
    }
    Some(sort_longest_first(rules))
}

/// Scan from `start` up to the first `stop` byte. Returns the scanned range
/// and the position just after the stop byte (or the end of the input).
fn take_until(bytes: &[u8], start: usize, stop: u8) -> (r: (usize, usize, usize))
    requires
        start <= bytes.len(),
    ensures
        start <= r.0 <= r.1 <= r.2 <= bytes.len(),
        r.0 == start,
        r.2 > start || start == bytes.len(),
        forall|j: int| r.0 <= j < r.1 ==> #[trigger] bytes@[j] != stop,
        r.1 < bytes.len() ==> bytes@[r.1 as int] == stop && r.2 == r.1 + 1,
        r.1 == bytes.len() ==> r.2 == bytes.len(),
        r.1 == stop_pos(bytes@, start as int, stop),
        r.2 == past_stop(bytes@, start as int, stop),
{
    let mut j = start;
    while j < bytes.len() && bytes[j] != stop
        invariant
            start <= j <= bytes.len(),
            forall|q: int| start <= q < j ==> #[trigger] bytes@[q] != stop,
            stop_pos(bytes@, start as int, stop) == stop_pos(bytes@, j as int, stop),
        decreases bytes.len() - j,
    {
        j = j + 1;
    }
    if j < bytes.len() {
        (start, j, j + 1)
    } else {
        (start, j, j)
    }
}

fn slice_bytes(bytes: &[u8], lo: usize, hi: usize) -> (r: Vec<u8>)
    requires
        lo <= hi <= bytes.len(),
    ensures
        r@ == bytes@.subrange(lo as int, hi as int),
{
    let mut r: Vec<u8> = Vec::new();
    let mut j = lo;
    while j < hi
        invariant
            lo <= j <= hi <= bytes.len(),
            r@ == bytes@.subrange(lo as int, j as int),
        decreases hi - j,
    {
        r.push(bytes[j]);
        j = j + 1;
        assert(r@ =~= bytes@.subrange(lo as int, j as int));
    }
    r
}

fn all_letter_chars(s: &Vec<u8>) -> (r: bool)
    ensures
        r == forall|i: int| 0 <= i < s@.len() ==> is_letter_char(#[trigger] s@[i]),
{
    let mut i: usize = 0;
    while i < s.len()
        invariant
            i <= s.len(),
            forall|q: int| 0 <= q < i ==> is_letter_char(#[trigger] s@[q]),
        decreases s.len() - i,
    {
        let c = s[i];
        if !(c == 97 || c == 65 || c == 66 || c == 98) {
            assert(!is_letter_char(s@[i as int]));
            return false;
        }
        i = i + 1;
    }
    true
}

/// Stable sort by left-hand side length, longest first.
fn sort_longest_first(v: Vec<RewriteRule>) -> (r: Vec<RewriteRule>)
    ensures
        r@.len() == v@.len(),
        rule_views(r@) == longest_first(rule_views(v@)),
        forall|x: int, y: int| 0 <= x < y < r@.len() ==> #[trigger] r@[x].lhs@.len() >= #[trigger] r@[y].lhs@.len(),
{
    let mut out: Vec<RewriteRule> = Vec::new();
    let mut i: usize = 0;
    while i < v.len()
        invariant
            i <= v.len(),
            out@.len() == i,
            forall|x: int, y: int| 0 <= x < y < out@.len() ==> #[trigger] out@[x].lhs@.len() >= #[trigger] out@[y].lhs@.len(),
            rule_views(out@) == longest_first(rule_views(v@).take(i as int)),
        decreases v.len() - i,
    {
        let item = RewriteRule { lhs: copy_word(&v[i].lhs), rhs: copy_word(&v[i].rhs) };
        let len = item.lhs.len();
        let mut p: usize = 0;
        while p < out.len() && out[p].lhs.len() >= len
            invariant
                p <= out.len(),
                forall|q: int| 0 <= q < p ==> #[trigger] out@[q].lhs@.len() >= len,
            decreases out.len() - p,
        {
            p = p + 1;
        }
        let ghost before = out@;
        let ghost x = (item.lhs@, item.rhs@);
        proof {
            let vs = rule_views(v@);
            assert(vs.take(i + 1).drop_last() =~= vs.take(i as int));
            assert(vs.take(i + 1).last() == x);
            lemma_insert_by_len_at(rule_views(before), x, p as int);
        }
        out.insert(p, item);
        proof {
            assert(rule_views(out@) =~= rule_views(before).take(p as int) + seq![x] + rule_views(before).skip(p as int));
        }
        assert forall|x: int, y: int| 0 <= x < y < out@.len() implies #[trigger] out@[x].lhs@.len() >= #[trigger] out@[y].lhs@.len() by {
            if y < p {
                assert(out@[x] == before[x] && out@[y] == before[y]);
            } else if y == p {
                assert(out@[x] == before[x]);
            } else if x == p {
                assert(out@[y] == before[y - 1]);
                if p < before.len() {
                    assert(before[p as int].lhs@.len() < len);
                    assert(before[p as int].lhs@.len() >= before[y - 1].lhs@.len());
                }
            } else if x < p {
                assert(out@[x] == before[x] && out@[y] == before[y - 1]);
            } else {
                assert(out@[x] == before[x - 1] && out@[y] == before[y - 1]);
            }
        }
        i = i + 1;
    }
    proof {
        assert(rule_views(v@).take(v@.len() as int) =~= rule_views(v@));
    }
    out
}

} // verus!
