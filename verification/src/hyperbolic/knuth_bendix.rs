//! Knuth-Bendix rewriting system for {4,n} hyperbolic tilings.
//!
//! The orientation-preserving symmetry group is
//! `G = < A, a, B | Aa = aA = e, B^4 = e, (AB)^n = e >`
//! where `A` steps forward across the facing edge, `a` steps back and `B`
//! turns left by a quarter. Completion computes rules, oriented from
//! shortlex-greater to shortlex-smaller words, that reduce words of the
//! group; rule left-hand sides are kept below a length bound.

use vstd::prelude::*;
use vstd::string::StringSliceAdditionalSpecFns;
use crate::hyperbolic::words::{
    Rules, occurs_at, splice, rewrites_at, convertible, irreducible, rules_hold_in, reduces_to, one_step,
    lemma_reduces_refl, lemma_reduces_step, lemma_reduces_mono, lemma_reduces_convertible,
    rank_bounded, lex_lt_at, shortlex_lt, oriented, word_value, lemma_conv_refl,
    lemma_conv_from_rewrite, lemma_conv_trans, lemma_conv_sym, lemma_conv_context,
    lemma_conv_lift, lemma_rewrite_decreases, lemma_shortlex_total, copy_word, words_equal, lemma_value_lt,
    find_subslice, splice_exec,
};
use crate::hyperbolic::completion::{
    overlaps, cp_left, cp_right, joins_within, critical_pairs_resolved, irreducible_words_within,
    lemma_irreducible_sub, lemma_irreducible_covered, lemma_lhs_covered, lemma_resolved_reorder,
    lemma_fewer_irreducible, shorter_free, inclusion_at, incl_right, joins, locally_joinable, normal_form_of,
    lemma_joins_same_normal_form, lemma_unique_normal_form, lemma_convertible_same_normal_form,
    lemma_empty_irreducible, lemma_irreducible_lhs_sub,
};

verus! {

/// Step forward (`A`).
pub const FWD: u8 = 65;

/// Step backward (`a`).
pub const BACK: u8 = 97;

/// Turn left (`B`).
pub const LEFT: u8 = 66;

/// A word in the free monoid over {A, a, B}.
pub type Word = Vec<u8>;

/// Shortlex rank of a letter: A < a < B, anything else last.
pub open spec fn kb_rank(c: u8) -> nat {
    if c == FWD {
        0
    } else if c == BACK {
        1
    } else if c == LEFT {
        2
    } else {
        255
    }
}

pub open spec fn kb_rank_fn() -> spec_fn(u8) -> nat {
    |c: u8| kb_rank(c)
}

pub open spec fn is_kb_letter(c: u8) -> bool {
    c == FWD || c == BACK || c == LEFT
}

/// Every letter of `w` is one of A, a, B.
pub open spec fn is_kb_word(w: Seq<u8>) -> bool {
    forall|i: int| 0 <= i < w.len() ==> is_kb_letter(#[trigger] w[i])
}

pub open spec fn rules_alphabet(rules: Rules) -> bool {
    forall|k: int| 0 <= k < rules.len() ==> is_kb_word(#[trigger] rules[k].0) && is_kb_word(rules[k].1)
}

/// `(AB)^n`.
pub open spec fn ab_word(n: nat) -> Seq<u8> {
    Seq::new(2 * n, |i: int| if i % 2 == 0 { FWD } else { LEFT })
}

/// `(BA)^n`.
pub open spec fn ba_word(n: nat) -> Seq<u8> {
    Seq::new(2 * n, |i: int| if i % 2 == 0 { LEFT } else { FWD })
}

/// The defining relations of the group, each as `relator -> e`.
pub open spec fn group_relations(n: nat) -> Rules {
    seq![
        (seq![FWD, BACK], Seq::<u8>::empty()),
        (seq![BACK, FWD], Seq::<u8>::empty()),
        (seq![LEFT, LEFT, LEFT, LEFT], Seq::<u8>::empty()),
        (ab_word(n), Seq::<u8>::empty()),
        (ba_word(n), Seq::<u8>::empty()),
    ]
}

/// A rule is oriented, written over {A, a, B}, and holds in the group.
pub open spec fn rule_ok(r: (Seq<u8>, Seq<u8>), n: nat) -> bool {
    &&& shortlex_lt(kb_rank_fn(), r.1, r.0)
    &&& is_kb_word(r.0)
    &&& is_kb_word(r.1)
    &&& convertible(group_relations(n), r.0, r.1)
}

pub open spec fn rules_view(v: Seq<(Vec<u8>, Vec<u8>)>) -> Rules {
    Seq::new(v.len(), |k: int| (v[k].0@, v[k].1@))
}

pub open spec fn rules_ok(v: Seq<(Vec<u8>, Vec<u8>)>, n: nat) -> bool {
    forall|k: int| 0 <= k < v.len() ==> rule_ok((#[trigger] v[k].0@, v[k].1@), n)
}

/// No rule occurs twice.
pub open spec fn rules_distinct(rs: Rules) -> bool {
    forall|i: int, j: int| 0 <= i < j < rs.len() ==> #[trigger] rs[i] != #[trigger] rs[j]
}

/// Every left-hand side is a defining relator or at most `bound` long.
pub open spec fn lhs_within(rs: Rules, n: nat, bound: nat) -> bool {
    forall|k: int| 0 <= k < rs.len() ==> (#[trigger] rs[k]).0.len() <= bound || exists|m: int| 0 <= m < 5
        && rs[k].0 == #[trigger] group_relations(n)[m].0
}

/// No rule rewrites any rule's right-hand side.
pub open spec fn rhs_irreducible(rs: Rules) -> bool {
    forall|k: int| 0 <= k < rs.len() ==> irreducible(rs, #[trigger] rs[k].1)
}

/// The rules are complete for the group: every overlap and inclusion of
/// left-hand sides rewrites both ways to one word, and every defining
/// relator rewrites to the empty word.
pub open spec fn complete_for(rs: Rules, n: nat) -> bool {
    &&& locally_joinable(rs)
    &&& forall|k: int| 0 <= k < 5 ==> reduces_to(rs, #[trigger] group_relations(n)[k].0, Seq::<u8>::empty())
}

/// Each defining relator of the group is rewritten by some rule.
pub open spec fn relators_rewritten(rs: Rules, n: nat) -> bool {
    forall|k: int| 0 <= k < 5 ==> !irreducible(rs, #[trigger] group_relations(n)[k].0)
}

/// Rules found in a completion round: each left-hand side is a word over
/// {A, a, B} of length at most `bound` that the round's rules leave alone.
spec fn fresh_rules(rs: Rules, v: Seq<(Vec<u8>, Vec<u8>)>, bound: nat) -> bool {
    forall|m: int| 0 <= m < v.len() ==> irreducible(rs, #[trigger] v[m].0@) && is_kb_word(v[m].0@) && v[m].0@.len() <= bound
}

proof fn lemma_kb_rank_bounded()
    ensures
        rank_bounded(kb_rank_fn()),
{
}

proof fn lemma_rules_ok_facts(v: Seq<(Vec<u8>, Vec<u8>)>, n: nat)
    requires
        rules_ok(v, n),
    ensures
        oriented(kb_rank_fn(), rules_view(v)),
        rules_alphabet(rules_view(v)),
        rules_hold_in(group_relations(n), rules_view(v)),
{
    let rs = rules_view(v);
    assert forall|k: int| 0 <= k < rs.len() implies shortlex_lt(
        kb_rank_fn(),
        #[trigger] rs[k].1,
        rs[k].0,
    ) by {
        assert(rule_ok((v[k].0@, v[k].1@), n));
    }
    assert forall|k: int| 0 <= k < rs.len() implies is_kb_word(#[trigger] rs[k].0) && is_kb_word(
        rs[k].1,
    ) by {
        assert(rule_ok((v[k].0@, v[k].1@), n));
    }
    assert forall|k: int| 0 <= k < rs.len() implies convertible(
        group_relations(n),
        #[trigger] rs[k].0,
        rs[k].1,
    ) by {
        assert(rule_ok((v[k].0@, v[k].1@), n));
    }
}

/// Splicing letters of the alphabet into a word of the alphabet stays in the alphabet.
proof fn lemma_splice_alphabet(w: Seq<u8>, p: int, m: int, r: Seq<u8>)
    requires
        is_kb_word(w),
        is_kb_word(r),
        0 <= p,
        p + m <= w.len(),
        0 <= m,
    ensures
        is_kb_word(splice(w, p, m, r)),
{
    let s = splice(w, p, m, r);
    assert forall|i: int| 0 <= i < s.len() implies is_kb_letter(#[trigger] s[i]) by {
        if i < p {
            assert(s[i] == w[i]);
        } else if i < p + r.len() {
            assert(s[i] == r[i - p]);
        } else {
            assert(s[i] == w[i - p - r.len() + p + m]);
        }
    }
}

/// Shortlex rank of a letter: A < a < B, anything else last.
fn letter_rank(c: u8) -> (r: u8)
    ensures
        r == kb_rank(c),
{
    if c == FWD {
        0
    } else if c == BACK {
        1
    } else if c == LEFT {
        2
    } else {
        255
    }
}

/// Returns true if `u` is strictly less than `v` in shortlex order
/// (shorter first, then letter by letter with A < a < B).
pub fn word_lt_shortlex(u: &[u8], v: &[u8]) -> (r: bool)
    ensures
        r == shortlex_lt(kb_rank_fn(), u@, v@),
{
    if u.len() != v.len() {
        return u.len() < v.len();
    }
    let mut i: usize = 0;
    while i < u.len()
        invariant
            u.len() == v.len(),
            i <= u.len(),
            forall|j: int| 0 <= j < i ==> kb_rank(#[trigger] u@[j]) == kb_rank(v@[j]),
        decreases u.len() - i,
    {
        let ru = letter_rank(u[i]);
        let rv = letter_rank(v[i]);
        if ru != rv {
            if ru < rv {
                assert(lex_lt_at(kb_rank_fn(), u@, v@, i as int));
                return true;
            } else {
                assert forall|k: int| !lex_lt_at(kb_rank_fn(), u@, v@, k) by {
                    if 0 <= k < u.len() && k > i {
                        assert(kb_rank(u@[i as int]) == kb_rank(v@[i as int])
                            || !lex_lt_at(kb_rank_fn(), u@, v@, k));
                    }
                }
                return false;
            }
        }
        i = i + 1;
    }
    assert forall|k: int| !lex_lt_at(kb_rank_fn(), u@, v@, k) by {
        if 0 <= k < u.len() {
            assert(kb_rank(u@[k]) == kb_rank(v@[k]));
        }
    }
    false
}

/// The inverse of a single letter.
pub open spec fn invert_letter(c: u8) -> Seq<u8> {
    if c == FWD {
        seq![BACK]
    } else if c == BACK {
        seq![FWD]
    } else if c == LEFT {
        seq![LEFT, LEFT, LEFT]
    } else {
        Seq::empty()
    }
}

/// The inverse of a word: reversed, with A and a swapped and B replaced by BBB.
pub open spec fn inverse_word(w: Seq<u8>) -> Seq<u8>
    decreases w.len(),
{
    if w.len() == 0 {
        Seq::empty()
    } else {
        inverse_word(w.drop_first()) + invert_letter(w.first())
    }
}

/// Invert a word: reverse and swap A and a, B becomes BBB (since B^-1 = B^3).
/// The result is not reduced.
pub fn invert_word(w: &[u8]) -> (r: Word)
    ensures
        r@ == inverse_word(w@),
{
    let mut result: Vec<u8> = Vec::new();
    let mut i: usize = w.len();
    assert(w@.subrange(i as int, w.len() as int) =~= Seq::<u8>::empty());
    while i > 0
        invariant
            i <= w.len(),
            result@ == inverse_word(w@.subrange(i as int, w.len() as int)),
        decreases i,
    {
        let c = w[i - 1];
        if c == FWD {
            result.push(BACK);
        } else if c == BACK {
            result.push(FWD);
        } else if c == LEFT {
            result.push(LEFT);
            result.push(LEFT);
            result.push(LEFT);
        }
        let ghost tail = w@.subrange(i - 1, w.len() as int);
        assert(tail.drop_first() =~= w@.subrange(i as int, w.len() as int));
        assert(tail.first() == c);
        assert(result@ =~= inverse_word(tail));
        i = i - 1;
    }
    assert(w@.subrange(0, w.len() as int) =~= w@);
    result
}

/// A word times its inverse is the identity of the group.
pub proof fn lemma_word_times_inverse(n: nat, w: Seq<u8>)
    requires
        is_kb_word(w),
    ensures
        convertible(group_relations(n), w + inverse_word(w), Seq::<u8>::empty()),
    decreases w.len(),
{
    let g = group_relations(n);
    if w.len() == 0 {
        assert(w + inverse_word(w) =~= Seq::<u8>::empty());
        lemma_conv_refl(g, Seq::<u8>::empty());
    } else {
        let c = w.first();
        let rest = w.drop_first();
        assert(is_kb_letter(w[0]));
        assert forall|i: int| 0 <= i < rest.len() implies is_kb_letter(#[trigger] rest[i]) by {
            assert(rest[i] == w[i + 1]);
        }
        lemma_word_times_inverse(n, rest);
        // c . c^-1 = e
        let pair = seq![c] + invert_letter(c);
        let k: int = if c == FWD {
            0
        } else if c == BACK {
            1
        } else {
            2
        };
        assert(pair =~= g[k].0);
        assert(occurs_at(g[k].0, pair, 0)) by {
            assert(pair.subrange(0, pair.len() as int) =~= pair);
        }
        assert(splice(pair, 0, g[k].0.len() as int, g[k].1) =~= Seq::<u8>::empty());
        assert(rewrites_at(g, k, pair, Seq::<u8>::empty(), 0));
        lemma_conv_from_rewrite(g, k, pair, Seq::<u8>::empty(), 0);
        // w . w^-1 = c . (rest . rest^-1) . c^-1
        let inner = rest + inverse_word(rest);
        lemma_conv_context(g, inner, Seq::<u8>::empty(), seq![c], invert_letter(c));
        assert(w + inverse_word(w) =~= seq![c] + inner + invert_letter(c));
        assert(seq![c] + Seq::<u8>::empty() + invert_letter(c) =~= pair);
        lemma_conv_trans(
            g,
            w + inverse_word(w),
            pair,
            Seq::<u8>::empty(),
        );
    }
}

/// Every defining relator equals the identity in the group.
pub proof fn lemma_defining_relations_hold(n: nat, k: int)
    requires
        0 <= k < 5,
    ensures
        convertible(group_relations(n), group_relations(n)[k].0, Seq::<u8>::empty()),
{
    let g = group_relations(n);
    let l = g[k].0;
    assert(l.subrange(0, l.len() as int) =~= l);
    assert(splice(l, 0, l.len() as int, g[k].1) =~= Seq::<u8>::empty());
    assert(rewrites_at(g, k, l, Seq::<u8>::empty(), 0));
    lemma_conv_from_rewrite(g, k, l, Seq::<u8>::empty(), 0);
}

proof fn lemma_group_relations_shape(n: nat, k: int)
    requires
        0 <= k < 5,
    ensures
        group_relations(n)[k].1 == Seq::<u8>::empty(),
        is_kb_word(group_relations(n)[k].0),
        is_kb_word(group_relations(n)[k].1),
{
    let g = group_relations(n);
    assert(g[0].1 == Seq::<u8>::empty());
    assert(g[1].1 == Seq::<u8>::empty());
    assert(g[2].1 == Seq::<u8>::empty());
    assert(g[3].1 == Seq::<u8>::empty());
    assert(g[4].1 == Seq::<u8>::empty());
    assert(is_kb_word(g[k].0)) by {
        assert forall|i: int| 0 <= i < g[k].0.len() implies is_kb_letter(#[trigger] g[k].0[i]) by {
            if k == 3 {
                assert(g[k].0 == ab_word(n));
            } else if k == 4 {
                assert(g[k].0 == ba_word(n));
            }
        }
    }
}

/// A completed (truncated) Knuth-Bendix rewriting system.
pub struct RewriteSystem {
    /// The vertex order n in {4,n}.
    pub vertex_order: u32,
    /// Maximum LHS length for rules found by completion.
    pub max_length: usize,
    /// Rewrite rules `(lhs, rhs)`, sorted by `(len(lhs), lhs)`.
    pub rules: Vec<(Word, Word)>,
}

impl RewriteSystem {
    /// Every rule is oriented, over {A, a, B}, and holds in the group.
    pub open spec fn wf(&self) -> bool {
        rules_ok(self.rules@, self.vertex_order as nat)
    }

    /// Build a rewriting system for the {4,n} tiling group.
    ///
    /// `vertex_order` must be >= 5 (hyperbolic). `max_length` bounds the
    /// left-hand sides of rules found by completion. The rules hold in the
    /// group, are sorted and distinct, no rule rewrites a right-hand side,
    /// each left-hand side is a defining
    /// relator or at most `max_length` long, every defining relator is
    /// rewritten, and completion has run to its end: both words of every
    /// critical pair rewrite to one irreducible word, unless one of their
    /// irreducible forms is longer than `max_length`.
    pub fn new(vertex_order: u32, max_length: usize) -> (r: Self)
        requires
            vertex_order >= 5,
        ensures
            r.wf(),
            r.vertex_order == vertex_order,
            r.max_length == max_length,
            forall|x: int, y: int| 0 <= x < y < r.rules@.len() ==> !lhs_before(#[trigger] r.rules@[y].0@, #[trigger] r.rules@[x].0@),
            rules_distinct(rules_view(r.rules@)),
            rhs_irreducible(rules_view(r.rules@)),
            lhs_within(rules_view(r.rules@), vertex_order as nat, max_length as nat),
            relators_rewritten(rules_view(r.rules@), vertex_order as nat),
            critical_pairs_resolved(rules_view(r.rules@), max_length as nat),
    {
        let ghost n = vertex_order as nat;
        let ghost g = group_relations(n);
        let nn = vertex_order as usize;

        let mut ab_n: Vec<u8> = Vec::new();
        let mut ba_n: Vec<u8> = Vec::new();
        let mut t: usize = 0;
        while t < nn
            invariant
                t <= nn,
                nn == n,
                ab_n@ =~= ab_word(t as nat),
                ba_n@ =~= ba_word(t as nat),
            decreases nn - t,
        {
            ab_n.push(FWD);
            ab_n.push(LEFT);
            ba_n.push(LEFT);
            ba_n.push(FWD);
            t = t + 1;
            assert(ab_n@ =~= ab_word(t as nat));
            assert(ba_n@ =~= ba_word(t as nat));
        }

        let mut initial: Vec<(Word, Word)> = Vec::new();
        initial.push((vec![FWD, BACK], Vec::new()));
        initial.push((vec![BACK, FWD], Vec::new()));
        initial.push((vec![LEFT, LEFT, LEFT, LEFT], Vec::new()));
        initial.push((ab_n, Vec::new()));
        initial.push((ba_n, Vec::new()));
        assert(rules_view(initial@) =~= g);

        let mut rules_set: Vec<(Word, Word)> = Vec::new();
        let mut s: usize = 0;
        while s < initial.len()
            invariant
                s <= initial.len(),
                rules_view(initial@) == g,
                initial.len() == 5,
                g == group_relations(n),
                rules_ok(rules_set@, n),
                n >= 5,
                forall|k: int| 0 <= k < s ==> !irreducible(rules_view(rules_set@), #[trigger] g[k].0),
                rules_distinct(rules_view(rules_set@)),
                forall|k: int| 0 <= k < rules_set@.len() ==> exists|m: int| 0 <= m < 5 && #[trigger] rules_view(rules_set@)[k].0
                    == g[m].0,
                forall|k: int| 0 <= k < rules_set@.len() ==> (#[trigger] rules_view(rules_set@)[k]).1 == Seq::<u8>::empty(),
            decreases initial.len() - s,
        {
            let lhs = &initial[s].0;
            let rhs = &initial[s].1;
            proof {
                assert(rules_view(initial@)[s as int] == (lhs@, rhs@));
                lemma_group_relations_shape(n, s as int);
                lemma_defining_relations_hold(n, s as int);
                lemma_conv_sym(g, lhs@, rhs@);
                if s == 3 {
                    assert(g[3].0 == ab_word(n));
                } else if s == 4 {
                    assert(g[4].0 == ba_word(n));
                }
                assert(lhs@.len() > 0);
                assert(lhs@.subrange(0, lhs@.len() as int) =~= lhs@);
            }
            let ghost prev0 = rules_set@;
            if let Some(o) = orient(lhs, rhs) {
                assert(o.0@ == lhs@);
                assert(o.1@ == rhs@ && rhs@ == Seq::<u8>::empty());
                if !contains_rule(&rules_set, &o) {
                    let ghost prev_rules_set = rules_set@;
                    rules_set.push(o);
                    assert(rules_ok(rules_set@, n)) by {
                        assert forall|k: int| 0 <= k < rules_set@.len() implies rule_ok(
                            (#[trigger] rules_set@[k].0@, rules_set@[k].1@),
                            n,
                        ) by {
                            if k < rules_set@.len() - 1 {
                                assert(rules_set@[k] == prev_rules_set[k]);
                            }
                        }
                    }
                    proof {
                        assert(occurs_at(rules_view(rules_set@)[prev_rules_set.len() as int].0, lhs@, 0));
                        lemma_push_distinct(prev_rules_set, rules_set@);
                        assert forall|k: int| 0 <= k < rules_set@.len() implies (#[trigger] rules_view(rules_set@)[k]).1
                            == Seq::<u8>::empty() by {
                            if k < prev_rules_set.len() {
                                assert(rules_view(rules_set@)[k] == rules_view(prev_rules_set)[k]);
                            }
                        }
                        assert forall|k: int| 0 <= k < rules_set@.len() implies exists|m: int| 0 <= m < 5
                            && #[trigger] rules_view(rules_set@)[k].0 == g[m].0 by {
                            if k < prev_rules_set.len() {
                                assert(rules_view(rules_set@)[k] == rules_view(prev_rules_set)[k]);
                            } else {
                                assert(rules_view(rules_set@)[k].0 == g[s as int].0);
                            }
                        }
                    }
                } else {
                    proof {
                        let m = choose|m: int| 0 <= m < rules_set@.len() && #[trigger] rules_view(rules_set@)[m] == (o.0@, o.1@);
                        assert(occurs_at(rules_view(rules_set@)[m].0, lhs@, 0));
                    }
                }
            }
            proof {
                let cur = rules_view(rules_set@);
                let old_v = rules_view(prev0);
                assert forall|m: int| 0 <= m < old_v.len() implies cur.contains(#[trigger] old_v[m]) by {
                    assert(cur[m] == old_v[m]);
                }
                assert forall|k: int| 0 <= k < s + 1 implies !irreducible(cur, #[trigger] g[k].0) by {
                    if k < s && irreducible(cur, g[k].0) {
                        lemma_irreducible_sub(old_v, cur, g[k].0);
                    }
                }
            }
            s = s + 1;
        }

        proof {
            lemma_rules_ok_facts(rules_set@, n);
            lemma_empty_irreducible(kb_rank_fn(), rules_view(rules_set@));
        }
        // Completion: each round adds the critical pairs that do not join,
        // until a round adds none.
        let ghost bound = max_length as nat;
        loop
            invariant
                rules_ok(rules_set@, n),
                g == group_relations(n),
                bound == max_length as nat,
                relators_rewritten(rules_view(rules_set@), n),
                rules_distinct(rules_view(rules_set@)),
                rhs_irreducible(rules_view(rules_set@)),
                lhs_within(rules_view(rules_set@), n, bound),
            ensures
                rules_ok(rules_set@, n),
                rules_distinct(rules_view(rules_set@)),
                rhs_irreducible(rules_view(rules_set@)),
                lhs_within(rules_view(rules_set@), n, bound),
                relators_rewritten(rules_view(rules_set@), n),
                critical_pairs_resolved(rules_view(rules_set@), bound),
            decreases irreducible_words_within(rules_view(rules_set@), bound),
        {
            let ghost start = rules_view(rules_set@);
            rules_set = sort_rules(rules_set, Ghost(n));
            let ghost rs = rules_view(rules_set@);
            proof {
                lemma_lhs_within_sub(rs, start, n, bound);
                assert forall|k: int| 0 <= k < rs.len() implies irreducible(rs, #[trigger] rs[k].1) by {
                    assert(start.contains(rs[k]));
                    let q = choose|q: int| 0 <= q < start.len() && start[q] == rs[k];
                    assert(irreducible(start, start[q].1));
                    lemma_irreducible_sub(rs, start, rs[k].1);
                }
                assert forall|k: int| 0 <= k < 5 implies !irreducible(rs, #[trigger] g[k].0) by {
                    if irreducible(rs, g[k].0) {
                        lemma_irreducible_sub(start, rs, g[k].0);
                    }
                }
            }
            let mut new_rules: Vec<(Word, Word)> = Vec::new();
            let count = rules_set.len();
            proof {
                lemma_rules_ok_facts(rules_set@, n);
            }
            let mut i: usize = 0;
            while i < count
                invariant
                    count == rules_set.len(),
                    rs == rules_view(rules_set@),
                    bound == max_length as nat,
                    rules_ok(rules_set@, n),
                    rules_ok(new_rules@, n),
                    oriented(kb_rank_fn(), rules_view(rules_set@)),
                    rules_alphabet(rules_view(rules_set@)),
                    rules_hold_in(group_relations(n), rules_view(rules_set@)),
                    fresh_rules(rs, new_rules@, bound),
                    new_rules@.len() == 0 ==> forall|x: int, y: int, k: int| #[trigger] overlaps(rs, x, y, k) && x < i
                        ==> joins_within(rs, cp_left(rs, x, y, k), cp_right(rs, x, y, k), bound),
                    i <= count,
                decreases count - i,
            {
                let mut j: usize = 0;
                while j < count
                    invariant
                        count == rules_set.len(),
                        rs == rules_view(rules_set@),
                        bound == max_length as nat,
                        rules_ok(rules_set@, n),
                        rules_ok(new_rules@, n),
                        oriented(kb_rank_fn(), rules_view(rules_set@)),
                        rules_alphabet(rules_view(rules_set@)),
                        rules_hold_in(group_relations(n), rules_view(rules_set@)),
                        fresh_rules(rs, new_rules@, bound),
                        new_rules@.len() == 0 ==> forall|x: int, y: int, k: int| #[trigger] overlaps(rs, x, y, k) && (x < i
                            || (x == i && y < j)) ==> joins_within(rs, cp_left(rs, x, y, k), cp_right(rs, x, y, k), bound),
                        i < count,
                        j <= count,
                    decreases count - j,
                {
                    let lhs1 = &rules_set[i].0;
                    let rhs1 = &rules_set[i].1;
                    let lhs2 = &rules_set[j].0;
                    let rhs2 = &rules_set[j].1;
                    let max_k = if lhs1.len() < lhs2.len() {
                        lhs1.len()
                    } else {
                        lhs2.len()
                    };
                    proof {
                        assert(rs[i as int] == (lhs1@, rhs1@));
                        assert(rs[j as int] == (lhs2@, rhs2@));
                    }
                    let mut kk: usize = 0;
                    while kk < max_k
                        invariant
                            count == rules_set.len(),
                            rs == rules_view(rules_set@),
                            bound == max_length as nat,
                            rules_ok(rules_set@, n),
                            rules_ok(new_rules@, n),
                            oriented(kb_rank_fn(), rules_view(rules_set@)),
                            rules_alphabet(rules_view(rules_set@)),
                            rules_hold_in(group_relations(n), rules_view(rules_set@)),
                            fresh_rules(rs, new_rules@, bound),
                            new_rules@.len() == 0 ==> forall|x: int, y: int, k: int| #[trigger] overlaps(rs, x, y, k) && (x < i
                                || (x == i && y < j) || (x == i && y == j && k <= kk)) ==> joins_within(
                                rs,
                                cp_left(rs, x, y, k),
                                cp_right(rs, x, y, k),
                                bound,
                            ),
                            i < count,
                            j < count,
                            rs[i as int] == (lhs1@, rhs1@),
                            rs[j as int] == (lhs2@, rhs2@),
                            lhs1 == &rules_set@[i as int].0,
                            rhs1 == &rules_set@[i as int].1,
                            lhs2 == &rules_set@[j as int].0,
                            rhs2 == &rules_set@[j as int].1,
                            max_k <= lhs1.len(),
                            max_k <= lhs2.len(),
                            max_k == lhs1.len() || max_k == lhs2.len(),
                            kk <= max_k,
                        decreases max_k - kk,
                    {
                        let k = kk + 1;
                        let ghost before_new = new_rules@;
                        if windows_equal(lhs1, lhs1.len() - k, lhs2, 0, k) {
                            let cp1 = concat_parts(rhs1, 0, rhs1.len(), lhs2, k, lhs2.len());
                            let cp2 = concat_parts(lhs1, 0, lhs1.len() - k, rhs2, 0, rhs2.len());
                            proof {
                                assert(rhs1@.subrange(0, rhs1@.len() as int) =~= rhs1@);
                                assert(rhs2@.subrange(0, rhs2@.len() as int) =~= rhs2@);
                                assert(overlaps(rs, i as int, j as int, k as int));
                                assert(cp1@ == cp_left(rs, i as int, j as int, k as int));
                                assert(cp2@ == cp_right(rs, i as int, j as int, k as int));
                                lemma_critical_pair(rs, i as int, j as int, k as int, cp1@, cp2@);
                            }
                            let r1 = reduce_with_rules(&cp1, &rules_set);
                            let r2 = reduce_with_rules(&cp2, &rules_set);
                            if !words_equal(&r1, &r2) {
                                proof {
                                    lemma_conv_sym(rs, cp1@, r1@);
                                    lemma_conv_trans(rs, r1@, cp1@, cp2@);
                                    lemma_conv_trans(rs, r1@, cp2@, r2@);
                                    lemma_conv_lift(group_relations(n), rs, r1@, r2@);
                                    lemma_conv_sym(group_relations(n), r1@, r2@);
                                }
                                if let Some(o) = orient(&r1, &r2) {
                                    let in_rules = contains_rule(&rules_set, &o);
                                    proof {
                                        if in_rules {
                                            let m = choose|m: int| 0 <= m < rules_set@.len() && #[trigger] rules_view(rules_set@)[m] == (o.0@, o.1@);
                                            assert(o.0@.subrange(0, o.0@.len() as int) =~= o.0@);
                                            assert(occurs_at(rs[m].0, o.0@, 0));
                                            assert(false);
                                        }
                                    }
                                    if o.0.len() <= max_length && !in_rules && !contains_rule(&new_rules, &o) {
                                        let ghost prev_new_rules = new_rules@;
                                        new_rules.push(o);
                                        assert(rules_ok(new_rules@, n)) by {
                                            assert forall|m: int|
                                                0 <= m < new_rules@.len() implies rule_ok(
                                                (#[trigger] new_rules@[m].0@, new_rules@[m].1@),
                                                n,
                                            ) by {
                                                if m < new_rules@.len() - 1 {
                                                    assert(new_rules@[m] == prev_new_rules[m]);
                                                }
                                            }
                                        }
                                        assert(fresh_rules(rs, new_rules@, bound)) by {
                                            assert forall|m: int| 0 <= m < new_rules@.len() implies irreducible(
                                                rs,
                                                #[trigger] new_rules@[m].0@,
                                            ) && is_kb_word(new_rules@[m].0@) && new_rules@[m].0@.len() <= bound by {
                                                if m < new_rules@.len() - 1 {
                                                    assert(new_rules@[m] == prev_new_rules[m]);
                                                }
                                            }
                                        }
                                    }
                                }
                            }
                            proof {
                                if new_rules@.len() == 0 {
                                    assert(before_new.len() == 0);
                                    assert(joins_within(rs, cp1@, cp2@, bound)) by {
                                        assert(reduces_to(rs, cp1@, r1@) && reduces_to(rs, cp2@, r2@));
                                    }
                                }
                            }
                        } else {
                            proof {
                                assert(!overlaps(rs, i as int, j as int, k as int));
                            }
                        }
                        kk = kk + 1;
                    }
                    proof {
                        assert forall|k: int| #[trigger] overlaps(rs, i as int, j as int, k) implies k <= kk by {}
                    }
                    j = j + 1;
                }
                i = i + 1;
            }

            if new_rules.is_empty() {
                break;
            }
            let ghost before = rules_set@;
            let ghost added = new_rules@;
            rules_set.append(&mut new_rules);
            let ghost t = rules_view(rules_set@);
            assert(rules_ok(rules_set@, n)) by {
                assert forall|m: int| 0 <= m < rules_set@.len() implies rule_ok(
                    (#[trigger] rules_set@[m].0@, rules_set@[m].1@),
                    n,
                ) by {
                    if m < before.len() {
                        assert(rules_set@[m] == before[m]);
                    } else {
                        assert(rules_set@[m] == added[m - before.len()]);
                    }
                }
            }
            rules_set = interreduce(rules_set, Ghost(n));
            proof {
                assert(t[before.len() as int] == (added[0].0@, added[0].1@));
                assert forall|m: int| 0 <= m < rs.len() implies t.contains(#[trigger] rs[m]) by {
                    assert(t[m] == rs[m]);
                }
                lemma_round_progress(start, rs, t, rules_set@, before.len() as int, bound, n);
            }
            proof {
                assert forall|k: int| 0 <= k < t.len() implies (#[trigger] t[k]).0.len() <= bound || exists|m: int| 0 <= m < 5
                    && t[k].0 == #[trigger] g[m].0 by {
                    if k < before.len() {
                        assert(t[k] == rs[k]);
                    } else {
                        assert(t[k].0 == added[k - before.len()].0@);
                    }
                }
                lemma_lhs_within_kept(t, rules_set@, n, bound);
                let u = rules_view(rules_set@);
                assert forall|k: int| 0 <= k < u.len() implies exists|m: int| 0 <= m < t.len() && t[m].0 == #[trigger] u[k].0 by {
                    assert(lhs_sides(t).contains(rules_set@[k].0@));
                    let m = choose|m: int| 0 <= m < lhs_sides(t).len() && lhs_sides(t)[m] == rules_set@[k].0@;
                    assert(t[m].0 == lhs_sides(t)[m]);
                }
                assert forall|k: int| 0 <= k < u.len() implies irreducible(u, #[trigger] u[k].1) by {
                    assert(irreducible(t, rules_set@[k].1@));
                    lemma_irreducible_lhs_sub(u, t, u[k].1);
                }
            }
        }

        let ghost last = rules_view(rules_set@);
        rules_set = sort_rules(rules_set, Ghost(n));
        proof {
            let fin = rules_view(rules_set@);
            lemma_resolved_reorder(last, fin, bound);
            lemma_lhs_within_sub(fin, last, n, bound);
            assert forall|k: int| 0 <= k < fin.len() implies irreducible(fin, #[trigger] fin[k].1) by {
                assert(last.contains(fin[k]));
                let q = choose|q: int| 0 <= q < last.len() && last[q] == fin[k];
                assert(irreducible(last, last[q].1));
                lemma_irreducible_sub(fin, last, fin[k].1);
            }
            assert forall|k: int| 0 <= k < 5 implies !irreducible(fin, #[trigger] g[k].0) by {
                if irreducible(fin, g[k].0) {
                    lemma_irreducible_sub(last, fin, g[k].0);
                }
            }
        }

        RewriteSystem { vertex_order, max_length, rules: rules_set }
    }

    /// Whether the rules are complete for the group: every overlap and
    /// inclusion of left-hand sides, rewritten either way, reduces to one
    /// word, and every defining relator reduces to the empty word.
    pub fn is_complete(&self) -> (r: bool)
        requires
            self.wf(),
        ensures
            r == complete_for(rules_view(self.rules@), self.vertex_order as nat),
    {
        let ghost rs = rules_view(self.rules@);
        let ghost n = self.vertex_order as nat;
        proof {
            lemma_rules_ok_facts(self.rules@, n);
            lemma_kb_rank_bounded();
        }
        let count = self.rules.len();
        let mut i: usize = 0;
        while i < count
            invariant
                count == self.rules@.len(),
                rs == rules_view(self.rules@),
                oriented(kb_rank_fn(), rs),
                i <= count,
                forall|x: int, y: int, k: int| #[trigger] overlaps(rs, x, y, k) && x < i ==> joins(
                    rs,
                    cp_left(rs, x, y, k),
                    cp_right(rs, x, y, k),
                ),
                forall|x: int, y: int, q: int| #[trigger] inclusion_at(rs, x, y, q) && x < i ==> joins(
                    rs,
                    rs[x].1,
                    incl_right(rs, x, y, q),
                ),
            decreases count - i,
        {
            let mut j: usize = 0;
            while j < count
                invariant
                    count == self.rules@.len(),
                    rs == rules_view(self.rules@),
                    oriented(kb_rank_fn(), rs),
                    i < count,
                    j <= count,
                    forall|x: int, y: int, k: int| #[trigger] overlaps(rs, x, y, k) && (x < i || (x == i && y < j))
                        ==> joins(rs, cp_left(rs, x, y, k), cp_right(rs, x, y, k)),
                    forall|x: int, y: int, q: int| #[trigger] inclusion_at(rs, x, y, q) && (x < i || (x == i && y < j))
                        ==> joins(rs, rs[x].1, incl_right(rs, x, y, q)),
                decreases count - j,
            {
                if !pair_joins(&self.rules, i, j) {
                    return false;
                }
                j = j + 1;
            }
            i = i + 1;
        }
        let rels = defining_relators(self.vertex_order);
        let mut k: usize = 0;
        while k < 5
            invariant
                rs == rules_view(self.rules@),
                oriented(kb_rank_fn(), rs),
                locally_joinable(rs),
                n == self.vertex_order as nat,
                rels@.len() == 5,
                forall|m: int| 0 <= m < 5 ==> (#[trigger] rels@[m])@ == group_relations(n)[m].0,
                k <= 5,
                forall|m: int| 0 <= m < k ==> reduces_to(rs, #[trigger] group_relations(n)[m].0, Seq::<u8>::empty()),
            decreases 5 - k,
        {
            let a = reduce_with_rules(&rels[k], &self.rules);
            if a.len() != 0 {
                proof {
                    let e = Seq::<u8>::empty();
                    if reduces_to(rs, group_relations(n)[k as int].0, e) {
                        lemma_empty_irreducible(kb_rank_fn(), rs);
                        lemma_unique_normal_form(kb_rank_fn(), rs, rels@[k as int]@, a@, e);
                    }
                }
                return false;
            }
            assert(a@ =~= Seq::<u8>::empty());
            k = k + 1;
        }
        true
    }

    /// Reduce a word to its canonical form: the result is reached from the
    /// word by rewriting steps, equals it in the group, is no greater in
    /// shortlex order (so no longer), no rule applies to it, and a word to
    /// which no rule applies comes back unchanged.
    pub fn reduce(&self, word: &[u8]) -> (r: Word)
        requires
            self.wf(),
        ensures
            convertible(group_relations(self.vertex_order as nat), word@, r@),
            reduces_to(rules_view(self.rules@), word@, r@),
            irreducible(rules_view(self.rules@), r@),
            irreducible(rules_view(self.rules@), word@) ==> r@ == word@,
            is_kb_word(word@) ==> is_kb_word(r@),
            r@.len() <= word@.len(),
            !shortlex_lt(kb_rank_fn(), word@, r@),
    {
        proof {
            lemma_rules_ok_facts(self.rules@, self.vertex_order as nat);
        }
        let r = reduce_with_rules(word, &self.rules);
        proof {
            lemma_kb_rank_bounded();
            if r@.len() == word@.len() && shortlex_lt(kb_rank_fn(), word@, r@) {
                let i = choose|i: int| lex_lt_at(kb_rank_fn(), word@, r@, i);
                lemma_value_lt(kb_rank_fn(), word@, r@, i);
            }
            lemma_conv_lift(
                group_relations(self.vertex_order as nat),
                rules_view(self.rules@),
                word@,
                r@,
            );
        }
        r
    }
}

/// Every left-hand side of `t` holds a left-hand side of what interreducing
/// `t` gave.
proof fn lemma_interreduced_covers(t: Rules, out: Seq<(Vec<u8>, Vec<u8>)>)
    requires
        forall|i: int| 0 <= i < t.len() && lhs_minimal(t, #[trigger] t[i]) ==> exists|k: int| 0 <= k < out.len()
            && #[trigger] out[k].0@ == t[i].0 && reduced_by_others(t, t[i], out[k].1@),
    ensures
        forall|ii: int| 0 <= ii < t.len() ==> !irreducible(rules_view(out), #[trigger] t[ii].0),
{
    let u = rules_view(out);
    assert forall|jj: int| 0 <= jj < t.len() && #[trigger] shorter_free(t, jj) implies exists|k: int| 0 <= k < u.len()
        && #[trigger] u[k].0 == t[jj].0 by {
        assert(lhs_minimal(t, t[jj]));
        let k = choose|k: int| 0 <= k < out.len() && #[trigger] out[k].0@ == t[jj].0 && reduced_by_others(
            t,
            t[jj],
            out[k].1@,
        );
        assert(u[k].0 == t[jj].0);
    }
    assert forall|ii: int| 0 <= ii < t.len() implies !irreducible(u, #[trigger] t[ii].0) by {
        lemma_lhs_covered(t, u, ii);
    }
}

/// A completion round: from the rules `start` of the round, sorted into
/// `rs`, extended to `t` by rules whose left-hand sides `rs` left alone, and
/// interreduced to `out`. Every word rewritten before is rewritten after, the
/// first new left-hand side is rewritten only now, and the relators stay
/// rewritten.
proof fn lemma_round_progress(
    start: Rules,
    rs: Rules,
    t: Rules,
    out: Seq<(Vec<u8>, Vec<u8>)>,
    q: int,
    bound: nat,
    n: nat,
)
    requires
        forall|m: int| 0 <= m < start.len() ==> rs.contains(#[trigger] start[m]),
        forall|m: int| 0 <= m < rs.len() ==> t.contains(#[trigger] rs[m]),
        0 <= q < t.len(),
        irreducible(rs, t[q].0),
        is_kb_word(t[q].0),
        t[q].0.len() <= bound,
        forall|i: int| 0 <= i < t.len() && lhs_minimal(t, #[trigger] t[i]) ==> exists|k: int| 0 <= k < out.len()
            && #[trigger] out[k].0@ == t[i].0 && reduced_by_others(t, t[i], out[k].1@),
        relators_rewritten(rs, n),
    ensures
        irreducible_words_within(rules_view(out), bound) < irreducible_words_within(start, bound),
        relators_rewritten(rules_view(out), n),
{
    let u = rules_view(out);
    let g = group_relations(n);
    let w0 = t[q].0;
    assert forall|m: int| 0 <= m < start.len() implies t.contains(#[trigger] start[m]) by {
        assert(rs.contains(start[m]));
        let p = choose|p: int| 0 <= p < rs.len() && rs[p] == start[m];
        assert(t.contains(rs[p]));
    }
    lemma_interreduced_covers(t, out);
    assert forall|v: Seq<u8>| #[trigger] irreducible(u, v) implies irreducible(start, v) by {
        lemma_irreducible_covered(t, u, v);
        lemma_irreducible_sub(start, t, v);
    }
    lemma_irreducible_sub(start, rs, w0);
    assert(w0.subrange(0, w0.len() as int) =~= w0);
    assert(occurs_at(t[q].0, w0, 0));
    if irreducible(u, w0) {
        lemma_irreducible_covered(t, u, w0);
    }
    lemma_fewer_irreducible(start, u, w0, bound);
    assert forall|k: int| 0 <= k < 5 implies !irreducible(u, #[trigger] g[k].0) by {
        if irreducible(u, g[k].0) {
            lemma_irreducible_covered(t, u, g[k].0);
            lemma_irreducible_sub(rs, t, g[k].0);
        }
    }
}

/// Pushing a rule that the list does not hold keeps its rules distinct.
proof fn lemma_push_distinct(before: Seq<(Vec<u8>, Vec<u8>)>, after: Seq<(Vec<u8>, Vec<u8>)>)
    requires
        rules_distinct(rules_view(before)),
        after.len() == before.len() + 1,
        forall|k: int| 0 <= k < before.len() ==> after[k] == before[k],
        !(exists|k: int| 0 <= k < before.len() && #[trigger] rules_view(before)[k] == (after[before.len() as int].0@, after[before.len() as int].1@)),
    ensures
        rules_distinct(rules_view(after)),
{
    let ra = rules_view(after);
    let rb = rules_view(before);
    assert forall|i: int, j: int| 0 <= i < j < ra.len() implies #[trigger] ra[i] != #[trigger] ra[j] by {
        assert(ra[i] == rb[i]);
        if j < before.len() {
            assert(ra[j] == rb[j]);
        }
    }
}

/// Rules drawn from a list whose left-hand sides are relators or within
/// `bound` keep that property.
proof fn lemma_lhs_within_sub(sub: Rules, sup: Rules, n: nat, bound: nat)
    requires
        lhs_within(sup, n, bound),
        forall|k: int| 0 <= k < sub.len() ==> sup.contains(#[trigger] sub[k]),
    ensures
        lhs_within(sub, n, bound),
{
    assert forall|k: int| 0 <= k < sub.len() implies (#[trigger] sub[k]).0.len() <= bound || exists|m: int| 0 <= m < 5
        && sub[k].0 == #[trigger] group_relations(n)[m].0 by {
        assert(sup.contains(sub[k]));
        let q = choose|q: int| 0 <= q < sup.len() && sup[q] == sub[k];
        assert(sup[q].0.len() <= bound || exists|m: int| 0 <= m < 5 && sup[q].0 == #[trigger] group_relations(n)[m].0);
    }
}

/// Interreducing keeps the left-hand sides among those it was given.
proof fn lemma_lhs_within_kept(t: Rules, out: Seq<(Vec<u8>, Vec<u8>)>, n: nat, bound: nat)
    requires
        lhs_within(t, n, bound),
        forall|k: int| 0 <= k < out.len() ==> lhs_sides(t).contains(#[trigger] out[k].0@),
    ensures
        lhs_within(rules_view(out), n, bound),
{
    let u = rules_view(out);
    assert forall|k: int| 0 <= k < u.len() implies (#[trigger] u[k]).0.len() <= bound || exists|m: int| 0 <= m < 5
        && u[k].0 == #[trigger] group_relations(n)[m].0 by {
        assert(lhs_sides(t).contains(out[k].0@));
        let q = choose|q: int| 0 <= q < lhs_sides(t).len() && lhs_sides(t)[q] == out[k].0@;
        assert(lhs_sides(t)[q] == t[q].0);
        assert(t[q].0.len() <= bound || exists|m: int| 0 <= m < 5 && t[q].0 == #[trigger] group_relations(n)[m].0);
    }
}

/// The defining relators of the group, in the order of `group_relations`.
fn defining_relators(n: u32) -> (v: Vec<Word>)
    ensures
        v@.len() == 5,
        forall|k: int| 0 <= k < 5 ==> (#[trigger] v@[k])@ == group_relations(n as nat)[k].0,
{
    let nn = n as usize;
    let mut ab_n: Vec<u8> = Vec::new();
    let mut ba_n: Vec<u8> = Vec::new();
    let mut t: usize = 0;
    while t < nn
        invariant
            t <= nn,
            nn == n,
            ab_n@ =~= ab_word(t as nat),
            ba_n@ =~= ba_word(t as nat),
        decreases nn - t,
    {
        ab_n.push(FWD);
        ab_n.push(LEFT);
        ba_n.push(LEFT);
        ba_n.push(FWD);
        t = t + 1;
        assert(ab_n@ =~= ab_word(t as nat));
        assert(ba_n@ =~= ba_word(t as nat));
    }
    let mut v: Vec<Word> = Vec::new();
    v.push(vec![FWD, BACK]);
    v.push(vec![BACK, FWD]);
    v.push(vec![LEFT, LEFT, LEFT, LEFT]);
    v.push(ab_n);
    v.push(ba_n);
    proof {
        let g = group_relations(n as nat);
        assert(v@[0]@ =~= g[0].0);
        assert(v@[1]@ =~= g[1].0);
        assert(v@[2]@ =~= g[2].0);
    }
    v
}

/// Whether every overlap of rule `i`'s left-hand side with rule `j`'s, and
/// every occurrence of rule `j`'s inside rule `i`'s, rewritten either way,
/// reduces to one word. When not, the rules do not join all overlaps.
fn pair_joins(rules: &Vec<(Word, Word)>, i: usize, j: usize) -> (r: bool)
    requires
        oriented(kb_rank_fn(), rules_view(rules@)),
        i < rules@.len(),
        j < rules@.len(),
    ensures
        r ==> forall|k: int| #[trigger] overlaps(rules_view(rules@), i as int, j as int, k) ==> joins(
            rules_view(rules@),
            cp_left(rules_view(rules@), i as int, j as int, k),
            cp_right(rules_view(rules@), i as int, j as int, k),
        ),
        r ==> forall|q: int| #[trigger] inclusion_at(rules_view(rules@), i as int, j as int, q) ==> joins(
            rules_view(rules@),
            rules_view(rules@)[i as int].1,
            incl_right(rules_view(rules@), i as int, j as int, q),
        ),
        !r ==> !locally_joinable(rules_view(rules@)),
{
    let ghost rs = rules_view(rules@);
    let l1 = &rules[i].0;
    let r1 = &rules[i].1;
    let l2 = &rules[j].0;
    let r2 = &rules[j].1;
    proof {
        lemma_kb_rank_bounded();
        assert(rs[i as int] == (l1@, r1@));
        assert(rs[j as int] == (l2@, r2@));
        assert(r1@.subrange(0, r1@.len() as int) =~= r1@);
        assert(r2@.subrange(0, r2@.len() as int) =~= r2@);
        assert(l2@.subrange(0, l2@.len() as int) =~= l2@);
    }
    let max_k = if l1.len() < l2.len() {
        l1.len()
    } else {
        l2.len()
    };
    let mut kk: usize = 0;
    while kk < max_k
        invariant
            rs == rules_view(rules@),
            oriented(kb_rank_fn(), rs),
            rank_bounded(kb_rank_fn()),
            i < rs.len(),
            j < rs.len(),
            rs[i as int] == (l1@, r1@),
            rs[j as int] == (l2@, r2@),
            r1@.subrange(0, r1@.len() as int) == r1@,
            r2@.subrange(0, r2@.len() as int) == r2@,
            max_k <= l1.len(),
            max_k <= l2.len(),
            max_k == l1.len() || max_k == l2.len(),
            kk <= max_k,
            forall|k: int| #[trigger] overlaps(rs, i as int, j as int, k) && k <= kk ==> joins(
                rs,
                cp_left(rs, i as int, j as int, k),
                cp_right(rs, i as int, j as int, k),
            ),
        decreases max_k - kk,
    {
        let k = kk + 1;
        if windows_equal(l1, l1.len() - k, l2, 0, k) {
            let cp1 = concat_parts(r1, 0, r1.len(), l2, k, l2.len());
            let cp2 = concat_parts(l1, 0, l1.len() - k, r2, 0, r2.len());
            assert(overlaps(rs, i as int, j as int, k as int));
            assert(cp1@ == cp_left(rs, i as int, j as int, k as int));
            assert(cp2@ == cp_right(rs, i as int, j as int, k as int));
            let a = reduce_with_rules(&cp1, rules);
            let b = reduce_with_rules(&cp2, rules);
            if !words_equal(&a, &b) {
                proof {
                    if locally_joinable(rs) {
                        lemma_joins_same_normal_form(kb_rank_fn(), rs, cp1@, cp2@, a@, b@);
                    }
                }
                return false;
            }
            assert(reduces_to(rs, cp1@, a@) && reduces_to(rs, cp2@, a@));
        }
        kk = kk + 1;
    }
    assert forall|k: int| #[trigger] overlaps(rs, i as int, j as int, k) implies joins(
        rs,
        cp_left(rs, i as int, j as int, k),
        cp_right(rs, i as int, j as int, k),
    ) by {
        assert(k <= max_k);
    }
    proof {
        assert(shortlex_lt(kb_rank_fn(), rs[j as int].1, rs[j as int].0));
        if r2@.len() == l2@.len() {
            let t = choose|t: int| lex_lt_at(kb_rank_fn(), r2@, l2@, t);
        }
    }
    if l2.len() <= l1.len() {
        let top = l1.len() - l2.len();
        let mut q: usize = 0;
        while q <= top
            invariant
                rs == rules_view(rules@),
                oriented(kb_rank_fn(), rs),
                rank_bounded(kb_rank_fn()),
                i < rs.len(),
                j < rs.len(),
                rs[i as int] == (l1@, r1@),
                rs[j as int] == (l2@, r2@),
                l2@.subrange(0, l2@.len() as int) == l2@,
                top == l1.len() - l2.len(),
                top < l1.len(),
                q <= top + 1,
                forall|k: int| #[trigger] overlaps(rs, i as int, j as int, k) ==> joins(
                    rs,
                    cp_left(rs, i as int, j as int, k),
                    cp_right(rs, i as int, j as int, k),
                ),
                forall|qq: int| #[trigger] inclusion_at(rs, i as int, j as int, qq) && qq < q ==> joins(
                    rs,
                    rs[i as int].1,
                    incl_right(rs, i as int, j as int, qq),
                ),
            decreases top + 1 - q,
        {
            if windows_equal(l1, q, l2, 0, l2.len()) {
                assert(inclusion_at(rs, i as int, j as int, q as int));
                let m = splice_exec(l1, q, l2.len(), r2);
                let a = reduce_with_rules(r1, rules);
                let b = reduce_with_rules(&m, rules);
                if !words_equal(&a, &b) {
                    proof {
                        if locally_joinable(rs) {
                            lemma_joins_same_normal_form(kb_rank_fn(), rs, r1@, m@, a@, b@);
                        }
                    }
                    return false;
                }
                assert(reduces_to(rs, r1@, a@) && reduces_to(rs, m@, a@));
            }
            q = q + 1;
        }
    }
    true
}

/// With rules complete for the group, reduction names each element of the
/// group by one word: the normal forms of two words are equal exactly when
/// the words are equal in the group.
pub proof fn lemma_canonical_forms(rw: RewriteSystem, u: Seq<u8>, v: Seq<u8>, a: Seq<u8>, b: Seq<u8>)
    requires
        rw.wf(),
        complete_for(rules_view(rw.rules@), rw.vertex_order as nat),
        normal_form_of(rules_view(rw.rules@), u, a),
        normal_form_of(rules_view(rw.rules@), v, b),
    ensures
        (a == b) == convertible(group_relations(rw.vertex_order as nat), u, v),
{
    let rs = rules_view(rw.rules@);
    let n = rw.vertex_order as nat;
    let g = group_relations(n);
    lemma_rules_ok_facts(rw.rules@, n);
    lemma_kb_rank_bounded();
    if convertible(g, u, v) {
        assert forall|k: int| 0 <= k < g.len() implies convertible(rs, #[trigger] g[k].0, g[k].1) by {
            lemma_group_relations_shape(n, k);
            lemma_reduces_convertible(rs, g[k].0, g[k].1);
        }
        lemma_conv_lift(rs, g, u, v);
        lemma_convertible_same_normal_form(kb_rank_fn(), rs, u, v, a, b);
    }
    if a == b {
        lemma_reduces_convertible(rs, u, a);
        lemma_reduces_convertible(rs, v, b);
        lemma_conv_lift(g, rs, u, a);
        lemma_conv_lift(g, rs, v, b);
        lemma_conv_sym(g, v, b);
        lemma_conv_trans(g, u, a, v);
    }
}

/// With rules complete for the group, a word followed by its inverse, and
/// each defining relator, reduce to the empty word, and a relator inserted
/// anywhere in a word leaves its normal form unchanged.
pub proof fn lemma_complete_cancels(
    rw: RewriteSystem,
    w: Seq<u8>,
    p: int,
    k: int,
    a: Seq<u8>,
    b: Seq<u8>,
    c: Seq<u8>,
)
    requires
        rw.wf(),
        complete_for(rules_view(rw.rules@), rw.vertex_order as nat),
        is_kb_word(w),
        0 <= p <= w.len(),
        0 <= k < 5,
        normal_form_of(rules_view(rw.rules@), w + inverse_word(w), a),
        normal_form_of(
            rules_view(rw.rules@),
            w.subrange(0, p) + group_relations(rw.vertex_order as nat)[k].0 + w.subrange(p, w.len() as int),
            b,
        ),
        normal_form_of(rules_view(rw.rules@), w, c),
    ensures
        a == Seq::<u8>::empty(),
        b == c,
{
    let rs = rules_view(rw.rules@);
    let n = rw.vertex_order as nat;
    let g = group_relations(n);
    let e = Seq::<u8>::empty();
    lemma_rules_ok_facts(rw.rules@, n);
    lemma_empty_irreducible(kb_rank_fn(), rs);
    lemma_reduces_refl(rs, e);
    lemma_word_times_inverse(n, w);
    lemma_canonical_forms(rw, w + inverse_word(w), e, a, e);
    let pre = w.subrange(0, p);
    let post = w.subrange(p, w.len() as int);
    lemma_defining_relations_hold(n, k);
    lemma_conv_context(g, g[k].0, e, pre, post);
    assert(pre + e + post =~= w);
    lemma_canonical_forms(rw, pre + g[k].0 + post, w, b, c);
}

/// An overlap of two rules yields two words that are equal under the rules.
proof fn lemma_critical_pair(rs: Rules, i: int, j: int, k: int, cp1: Seq<u8>, cp2: Seq<u8>)
    requires
        0 <= i < rs.len(),
        0 <= j < rs.len(),
        rules_alphabet(rs),
        1 <= k <= rs[i].0.len(),
        k <= rs[j].0.len(),
        rs[i].0.subrange(rs[i].0.len() - k, rs[i].0.len() as int) == rs[j].0.subrange(0, k),
        cp1 == rs[i].1 + rs[j].0.subrange(k, rs[j].0.len() as int),
        cp2 == rs[i].0.subrange(0, rs[i].0.len() - k) + rs[j].1,
    ensures
        convertible(rs, cp1, cp2),
        is_kb_word(cp1),
        is_kb_word(cp2),
{
    let l1 = rs[i].0;
    let r1 = rs[i].1;
    let l2 = rs[j].0;
    let r2 = rs[j].1;
    let n1 = l1.len() as int;
    let n2 = l2.len() as int;
    assert(is_kb_word(l1) && is_kb_word(r1));
    assert(is_kb_word(l2) && is_kb_word(r2));
    let w = l1 + l2.subrange(k, n2);
    // Rule i applies to the overlap at position 0.
    assert(w.subrange(0, n1) =~= l1);
    assert(splice(w, 0, n1, r1) =~= cp1);
    assert(rewrites_at(rs, i, w, cp1, 0));
    lemma_conv_from_rewrite(rs, i, w, cp1, 0);
    // Rule j applies at position n1 - k.
    assert(w.subrange(n1 - k, n1 - k + n2) =~= l2) by {
        assert forall|t: int| 0 <= t < n2 implies w.subrange(n1 - k, n1 - k + n2)[t] == l2[t] by {
            if t < k {
                assert(w[n1 - k + t] == l1[n1 - k + t]);
                assert(l1.subrange(n1 - k, n1)[t] == l2.subrange(0, k)[t]);
            } else {
                assert(w[n1 - k + t] == l2.subrange(k, n2)[t - k]);
            }
        }
    }
    assert(splice(w, n1 - k, n2, r2) =~= cp2);
    assert(rewrites_at(rs, j, w, cp2, n1 - k));
    lemma_conv_from_rewrite(rs, j, w, cp2, n1 - k);
    lemma_conv_trans(rs, cp1, w, cp2);
    assert forall|t: int| 0 <= t < cp1.len() implies is_kb_letter(#[trigger] cp1[t]) by {
        if t < r1.len() {
            assert(cp1[t] == r1[t]);
        } else {
            assert(cp1[t] == l2[t - r1.len() + k]);
        }
    }
    assert forall|t: int| 0 <= t < cp2.len() implies is_kb_letter(#[trigger] cp2[t]) by {
        if t < n1 - k {
            assert(cp2[t] == l1[t]);
        } else {
            assert(cp2[t] == r2[t - (n1 - k)]);
        }
    }
}

/// Whether `a[a_start .. a_start + len]` equals `b[b_start .. b_start + len]`.
pub(crate) fn windows_equal(a: &[u8], a_start: usize, b: &[u8], b_start: usize, len: usize) -> (r: bool)
    requires
        a_start + len <= a.len(),
        b_start + len <= b.len(),
    ensures
        r == (a@.subrange(a_start as int, a_start + len) == b@.subrange(
            b_start as int,
            b_start + len,
        )),
{
    let ghost sa = a@.subrange(a_start as int, a_start + len);
    let ghost sb = b@.subrange(b_start as int, b_start + len);
    let mut t: usize = 0;
    while t < len
        invariant
            a_start + len <= a.len(),
            b_start + len <= b.len(),
            sa == a@.subrange(a_start as int, a_start + len),
            sb == b@.subrange(b_start as int, b_start + len),
            t <= len,
            forall|q: int| 0 <= q < t ==> #[trigger] sa[q] == sb[q],
        decreases len - t,
    {
        if a[a_start + t] != b[b_start + t] {
            assert(sa[t as int] != sb[t as int]);
            return false;
        }
        assert(sa[t as int] == sb[t as int]);
        t = t + 1;
    }
    assert(sa =~= sb);
    true
}

/// `a[a_lo .. a_hi]` followed by `b[b_lo .. b_hi]`.
pub(crate) fn concat_parts(a: &[u8], a_lo: usize, a_hi: usize, b: &[u8], b_lo: usize, b_hi: usize) -> (r:
    Word)
    requires
        a_lo <= a_hi <= a.len(),
        b_lo <= b_hi <= b.len(),
    ensures
        r@ == a@.subrange(a_lo as int, a_hi as int) + b@.subrange(b_lo as int, b_hi as int),
{
    let mut r: Vec<u8> = Vec::new();
    let mut t: usize = a_lo;
    while t < a_hi
        invariant
            a_lo <= t <= a_hi <= a.len(),
            r@ == a@.subrange(a_lo as int, t as int),
        decreases a_hi - t,
    {
        r.push(a[t]);
        t = t + 1;
        assert(r@ =~= a@.subrange(a_lo as int, t as int));
    }
    let mut u: usize = b_lo;
    while u < b_hi
        invariant
            b_lo <= u <= b_hi <= b.len(),
            r@ == a@.subrange(a_lo as int, a_hi as int) + b@.subrange(b_lo as int, u as int),
        decreases b_hi - u,
    {
        r.push(b[u]);
        u = u + 1;
        assert(r@ =~= a@.subrange(a_lo as int, a_hi as int) + b@.subrange(b_lo as int, u as int));
    }
    r
}

/// Whether the rule list holds the rule `r`.
fn contains_rule(v: &Vec<(Word, Word)>, r: &(Word, Word)) -> (res: bool)
    ensures
        res == exists|k: int| 0 <= k < v@.len() && #[trigger] rules_view(v@)[k] == (r.0@, r.1@),
{
    let mut k: usize = 0;
    while k < v.len()
        invariant
            k <= v.len(),
            forall|m: int| 0 <= m < k ==> #[trigger] rules_view(v@)[m] != (r.0@, r.1@),
        decreases v.len() - k,
    {
        if words_equal(&v[k].0, &r.0) && words_equal(&v[k].1, &r.1) {
            assert(rules_view(v@)[k as int] == (r.0@, r.1@));
            return true;
        }
        assert(rules_view(v@)[k as int] == (v@[k as int].0@, v@[k as int].1@));
        k = k + 1;
    }
    false
}

/// Orient a pair as a rewrite rule: shortlex-greater to smaller.
/// Returns `None` if `u == v`.
fn orient(u: &[u8], v: &[u8]) -> (r: Option<(Word, Word)>)
    ensures
        r is None <==> u@ == v@,
        r matches Some(p) ==> ((p.0@ == v@ && p.1@ == u@) || (p.0@ == u@ && p.1@ == v@)),
        r matches Some(p) ==> (is_kb_word(u@) && is_kb_word(v@) ==> shortlex_lt(
            kb_rank_fn(),
            p.1@,
            p.0@,
        )),
        r matches Some(p) ==> if shortlex_lt(kb_rank_fn(), u@, v@) {
            p.0@ == v@ && p.1@ == u@
        } else {
            p.0@ == u@ && p.1@ == v@
        },
{
    if words_equal(u, v) {
        return None;
    }
    if word_lt_shortlex(u, v) {
        Some((copy_word(v), copy_word(u)))
    } else {
        proof {
            if is_kb_word(u@) && is_kb_word(v@) && u@.len() == v@.len() {
                assert forall|j: int| 0 <= j < u@.len() && u@[j] != v@[j] implies kb_rank(
                    #[trigger] u@[j],
                ) != kb_rank(v@[j]) by {
                    assert(is_kb_letter(u@[j]));
                    assert(is_kb_letter(v@[j]));
                }
                lemma_shortlex_total(kb_rank_fn(), u@, v@);
            }
        }
        Some((copy_word(u), copy_word(v)))
    }
}

/// The first rule (in list order) whose left-hand side occurs in `w`, with
/// the position of its first occurrence.
fn find_first_rule(w: &[u8], rules: &Vec<(Word, Word)>) -> (r: Option<(usize, usize)>)
    ensures
        match r {
            Some((k, p)) => k < rules@.len() && occurs_at(
                rules_view(rules@)[k as int].0,
                w@,
                p as int,
            ),
            None => irreducible(rules_view(rules@), w@),
        },
{
    let ghost rs = rules_view(rules@);
    let mut k: usize = 0;
    while k < rules.len()
        invariant
            rs == rules_view(rules@),
            k <= rules.len(),
            forall|m: int, p: int| 0 <= m < k ==> !#[trigger] occurs_at(rs[m].0, w@, p),
        decreases rules.len() - k,
    {
        assert(rs[k as int].0 == rules@[k as int].0@);
        match find_subslice(w, &rules[k].0) {
            Some(p) => {
                return Some((k, p));
            },
            None => {},
        }
        k = k + 1;
    }
    None
}

/// Apply rules left-to-right until no more apply: each round rewrites the
/// first occurrence of the first rule that occurs.
fn reduce_with_rules(word: &[u8], rules: &Vec<(Word, Word)>) -> (r: Word)
    requires
        oriented(kb_rank_fn(), rules_view(rules@)),
    ensures
        convertible(rules_view(rules@), word@, r@),
        irreducible(rules_view(rules@), r@),
        irreducible(rules_view(rules@), word@) ==> r@ == word@,
        is_kb_word(word@) && rules_alphabet(rules_view(rules@)) ==> is_kb_word(r@),
        r@.len() < word@.len() || (r@.len() == word@.len() && word_value(kb_rank_fn(), r@) <= word_value(kb_rank_fn(), word@)),
        reduces_to(rules_view(rules@), word@, r@),
{
    let ghost rs = rules_view(rules@);
    let mut w: Word = copy_word(word);
    proof {
        lemma_conv_refl(rs, word@);
        lemma_kb_rank_bounded();
        lemma_reduces_refl(rs, word@);
    }
    loop
        invariant
            rs == rules_view(rules@),
            oriented(kb_rank_fn(), rs),
            rank_bounded(kb_rank_fn()),
            convertible(rs, word@, w@),
            irreducible(rs, word@) ==> w@ == word@,
            is_kb_word(word@) && rules_alphabet(rs) ==> is_kb_word(w@),
            w@.len() < word@.len() || (w@.len() == word@.len() && word_value(kb_rank_fn(), w@) <= word_value(kb_rank_fn(), word@)),
            reduces_to(rs, word@, w@),
        decreases w@.len(), word_value(kb_rank_fn(), w@),
    {
        match find_first_rule(&w, rules) {
            None => {
                return w;
            },
            Some((k, p)) => {
                let lhs_len = rules[k].0.len();
                assert(rs[k as int] == (rules@[k as int].0@, rules@[k as int].1@));
                let next = splice_exec(&w, p, lhs_len, &rules[k].1);
                proof {
                    assert(rewrites_at(rs, k as int, w@, next@, p as int));
                    lemma_conv_from_rewrite(rs, k as int, w@, next@, p as int);
                    lemma_conv_trans(rs, word@, w@, next@);
                    lemma_rewrite_decreases(kb_rank_fn(), rs, k as int, w@, next@, p as int);
                    assert(one_step(rs, w@, next@));
                    lemma_reduces_step(rs, word@, w@, next@);
                    if is_kb_word(word@) && rules_alphabet(rs) {
                        assert(is_kb_word(rs[k as int].1));
                        lemma_splice_alphabet(w@, p as int, lhs_len as int, rs[k as int].1);
                    }
                    if irreducible(rs, word@) {
                        assert(!occurs_at(rs[k as int].0, w@, p as int));
                    }
                }
                w = next;
            },
        }
    }
}

/// Copy a rule.
fn copy_rule(r: &(Word, Word)) -> (c: (Word, Word))
    ensures
        c.0@ == r.0@,
        c.1@ == r.1@,
{
    (copy_word(&r.0), copy_word(&r.1))
}

/// Byte-wise lexicographic order on words of equal length.
pub open spec fn byte_rank_fn() -> spec_fn(u8) -> nat {
    |c: u8| c as nat
}

/// Whether left-hand side `a` sorts strictly before `b`: shorter first,
/// equal lengths compared byte by byte.
pub open spec fn lhs_before(a: Seq<u8>, b: Seq<u8>) -> bool {
    a.len() < b.len() || (a.len() == b.len() && exists|i: int| lex_lt_at(byte_rank_fn(), a, b, i))
}

proof fn lemma_lhs_before_trans(x: Seq<u8>, y: Seq<u8>, z: Seq<u8>)
    requires
        lhs_before(x, y),
        lhs_before(y, z),
    ensures
        lhs_before(x, z),
{
    if x.len() == y.len() && y.len() == z.len() {
        let i = choose|i: int| lex_lt_at(byte_rank_fn(), x, y, i);
        let j = choose|j: int| lex_lt_at(byte_rank_fn(), y, z, j);
        let k = if i < j { i } else { j };
        assert forall|t: int| 0 <= t < k implies byte_rank_fn()(#[trigger] x[t]) == byte_rank_fn()(z[t]) by {
            assert(byte_rank_fn()(x[t]) == byte_rank_fn()(y[t]));
            assert(byte_rank_fn()(y[t]) == byte_rank_fn()(z[t]));
        }
        if i < j {
            assert(byte_rank_fn()(y[i]) == byte_rank_fn()(z[i]));
        } else if j < i {
            assert(byte_rank_fn()(x[j]) == byte_rank_fn()(y[j]));
        }
        assert(lex_lt_at(byte_rank_fn(), x, z, k));
    }
}

proof fn lemma_lhs_before_irrefl(x: Seq<u8>)
    ensures
        !lhs_before(x, x),
{
    assert forall|k: int| !lex_lt_at(byte_rank_fn(), x, x, k) by {}
}

/// Whether `a` sorts strictly before `b` by `(len(lhs), lhs)` with bytes compared by value.
fn rule_key_lt(a: &(Word, Word), b: &(Word, Word)) -> (r: bool)
    ensures
        r == (a.0@.len() < b.0@.len() || (a.0@.len() == b.0@.len() && exists|i: int|
            lex_lt_at(byte_rank_fn(), a.0@, b.0@, i))),
{
    let x = &a.0;
    let y = &b.0;
    assert(x@ == a.0@ && y@ == b.0@);
    if x.len() != y.len() {
        return x.len() < y.len();
    }
    let mut i: usize = 0;
    while i < x.len()
        invariant
            x@ == a.0@,
            y@ == b.0@,
            x.len() == y.len(),
            i <= x.len(),
            forall|j: int| 0 <= j < i ==> #[trigger] x@[j] == y@[j],
        decreases x.len() - i,
    {
        if x[i] != y[i] {
            if x[i] < y[i] {
                assert(lex_lt_at(byte_rank_fn(), x@, y@, i as int));
                return true;
            } else {
                assert forall|k: int| !lex_lt_at(byte_rank_fn(), x@, y@, k) by {
                    if 0 <= k < x@.len() && k > i {
                        assert(x@[i as int] as nat != y@[i as int] as nat);
                    }
                }
                return false;
            }
        }
        i = i + 1;
    }
    assert forall|k: int| !lex_lt_at(byte_rank_fn(), x@, y@, k) by {
        if 0 <= k < x@.len() {
            assert(x@[k] == y@[k]);
        }
    }
    false
}

/// Stable sort of a rule list by `(len(lhs), lhs)`.
fn sort_rules(v: Vec<(Word, Word)>, Ghost(n): Ghost<nat>) -> (r: Vec<(Word, Word)>)
    requires
        rules_ok(v@, n),
    ensures
        rules_ok(r@, n),
        r@.len() == v@.len(),
        forall|x: int, y: int| 0 <= x < y < r@.len() ==> !lhs_before(#[trigger] r@[y].0@, #[trigger] r@[x].0@),
        forall|j: int| 0 <= j < v@.len() ==> rules_view(r@).contains(#[trigger] rules_view(v@)[j]),
        forall|q: int| 0 <= q < r@.len() ==> rules_view(v@).contains(#[trigger] rules_view(r@)[q]),
        rules_distinct(rules_view(v@)) ==> rules_distinct(rules_view(r@)),
{
    let mut out: Vec<(Word, Word)> = Vec::new();
    let mut i: usize = 0;
    while i < v.len()
        invariant
            i <= v.len(),
            out@.len() == i,
            rules_ok(v@, n),
            rules_ok(out@, n),
            forall|a: int, b: int| 0 <= a < b < out@.len() ==> !lhs_before(#[trigger] out@[b].0@, #[trigger] out@[a].0@),
            forall|j: int| 0 <= j < i ==> rules_view(out@).contains(#[trigger] rules_view(v@)[j]),
            forall|q: int| 0 <= q < out@.len() ==> rules_view(v@).contains(#[trigger] rules_view(out@)[q]),
            forall|q: int| #![trigger rules_view(out@)[q]] 0 <= q < out@.len() ==> exists|j: int| 0 <= j < i && #[trigger] rules_view(v@)[j] == rules_view(out@)[q],
            rules_distinct(rules_view(v@)) ==> rules_distinct(rules_view(out@)),
        decreases v.len() - i,
    {
        let x = copy_rule(&v[i]);
        assert(rule_ok((v@[i as int].0@, v@[i as int].1@), n));
        let mut p: usize = 0;
        while p < out.len() && !rule_key_lt(&x, &out[p])
            invariant
                p <= out.len(),
                forall|q: int| 0 <= q < p ==> !lhs_before(x.0@, #[trigger] out@[q].0@),
            decreases out.len() - p,
        {
            p = p + 1;
        }
        let ghost before = out@;
        out.insert(p, x);
        proof {
            let rv = rules_view(v@);
            let ro = rules_view(out@);
            let rb = rules_view(before);
            assert(ro[p as int] == rv[i as int]);
            assert forall|j: int| 0 <= j < i + 1 implies ro.contains(#[trigger] rv[j]) by {
                if j == i {
                    assert(ro[p as int] == rv[j]);
                } else {
                    assert(rb.contains(rv[j]));
                    let q = choose|q: int| 0 <= q < rb.len() && rb[q] == rv[j];
                    if q < p {
                        assert(ro[q] == rb[q]);
                    } else {
                        assert(ro[q + 1] == rb[q]);
                    }
                }
            }
            assert forall|q: int| 0 <= q < out@.len() implies rv.contains(#[trigger] ro[q]) by {
                if q < p {
                    assert(ro[q] == rb[q]);
                    assert(rv.contains(rb[q]));
                } else if q == p {
                    assert(ro[q] == rv[i as int]);
                } else {
                    assert(ro[q] == rb[q - 1]);
                    assert(rv.contains(rb[q - 1]));
                }
            }
            assert forall|q: int| #![trigger ro[q]] 0 <= q < out@.len() implies exists|j: int| 0 <= j < i + 1 && #[trigger] rv[j] == ro[q] by {
                if q < p {
                    assert(ro[q] == rb[q]);
                    let j = choose|j: int| 0 <= j < i && #[trigger] rv[j] == rb[q];
                    assert(rv[j] == ro[q]);
                } else if q == p {
                    assert(rv[i as int] == ro[q]);
                } else {
                    assert(ro[q] == rb[q - 1]);
                    let j = choose|j: int| 0 <= j < i && #[trigger] rv[j] == rb[q - 1];
                    assert(rv[j] == ro[q]);
                }
            }
            if rules_distinct(rv) {
                assert forall|q: int| 0 <= q < rb.len() implies #[trigger] rb[q] != rv[i as int] by {
                    let j = choose|j: int| 0 <= j < i && #[trigger] rv[j] == rb[q];
                }
                assert forall|a: int, b: int| 0 <= a < b < ro.len() implies #[trigger] ro[a] != #[trigger] ro[b] by {
                    if b < p {
                        assert(ro[a] == rb[a] && ro[b] == rb[b]);
                    } else if b == p {
                        assert(ro[a] == rb[a]);
                    } else if a == p {
                        assert(ro[b] == rb[b - 1]);
                    } else if a < p {
                        assert(ro[a] == rb[a] && ro[b] == rb[b - 1]);
                    } else {
                        assert(ro[a] == rb[a - 1] && ro[b] == rb[b - 1]);
                    }
                }
            }
            assert forall|a: int, b: int| 0 <= a < b < out@.len() implies !lhs_before(#[trigger] out@[b].0@, #[trigger] out@[a].0@) by {
                if b < p {
                    assert(out@[a] == before[a] && out@[b] == before[b]);
                } else if b == p {
                    assert(out@[a] == before[a]);
                } else if a == p {
                    assert(out@[b] == before[b - 1]);
                    assert(lhs_before(x.0@, before[p as int].0@));
                    if lhs_before(before[b - 1].0@, x.0@) {
                        lemma_lhs_before_trans(before[b - 1].0@, x.0@, before[p as int].0@);
                        if b - 1 == p {
                            lemma_lhs_before_irrefl(before[p as int].0@);
                        }
                    }
                } else if a < p {
                    assert(out@[a] == before[a] && out@[b] == before[b - 1]);
                } else {
                    assert(out@[a] == before[a - 1] && out@[b] == before[b - 1]);
                }
            }
        }
        assert(rules_ok(out@, n)) by {
            assert forall|m: int| 0 <= m < out@.len() implies rule_ok(
                (#[trigger] out@[m].0@, out@[m].1@),
                n,
            ) by {
                if m < p {
                    assert(out@[m] == before[m]);
                } else if m > p {
                    assert(out@[m] == before[m - 1]);
                }
            }
        }
        i = i + 1;
    }
    out
}

/// A word that reduction reached from the right-hand side of an oriented
/// rule differs from its left-hand side and does not sort before it.
proof fn lemma_reduced_below(lhs: Seq<u8>, rhs: Seq<u8>, w: Seq<u8>)
    requires
        shortlex_lt(kb_rank_fn(), rhs, lhs),
        w.len() < rhs.len() || (w.len() == rhs.len() && word_value(kb_rank_fn(), w) <= word_value(kb_rank_fn(), rhs)),
    ensures
        w != lhs,
        !shortlex_lt(kb_rank_fn(), lhs, w),
{
    lemma_kb_rank_bounded();
    if rhs.len() == lhs.len() {
        let i = choose|i: int| lex_lt_at(kb_rank_fn(), rhs, lhs, i);
        lemma_value_lt(kb_rank_fn(), rhs, lhs, i);
        if w.len() == lhs.len() {
            if shortlex_lt(kb_rank_fn(), lhs, w) {
                let j = choose|j: int| lex_lt_at(kb_rank_fn(), lhs, w, j);
                lemma_value_lt(kb_rank_fn(), lhs, w, j);
            }
        }
    }
}

/// The left-hand sides of the rules, in order.
pub open spec fn lhs_sides(rs: Rules) -> Seq<Seq<u8>> {
    rs.map_values(|x: (Seq<u8>, Seq<u8>)| x.0)
}

/// No input rule whose left-hand side is shorter than `x`'s rewrites `x`'s
/// left-hand side.
pub open spec fn lhs_minimal(rs: Rules, x: (Seq<u8>, Seq<u8>)) -> bool {
    forall|j: int, p: int| 0 <= j < rs.len() && rs[j].0.len() < x.0.len() ==> !#[trigger] occurs_at(rs[j].0, x.0, p)
}

/// No rule of `rs` other than `x` rewrites `w`.
pub open spec fn reduced_by_others(rs: Rules, x: (Seq<u8>, Seq<u8>), w: Seq<u8>) -> bool {
    forall|j: int, p: int| 0 <= j < rs.len() && rs[j] != x ==> !#[trigger] occurs_at(rs[j].0, w, p)
}

/// Interreduce: reduce each rule's right-hand side by all other rules and
/// drop rules made redundant by the others.
/// The rules of `list` but the one at `i`, in order.
fn rules_except(list: &Vec<(Word, Word)>, i: usize, Ghost(n): Ghost<nat>) -> (others: Vec<(Word, Word)>)
    requires
        rules_ok(list@, n),
        i < list@.len(),
    ensures
        rules_ok(others@, n),
        forall|q: int| 0 <= q < list@.len() && q != i ==> rules_view(others@).contains(#[trigger] rules_view(list@)[q]),
        forall|m: int| 0 <= m < others@.len() ==> rules_view(list@).contains(#[trigger] rules_view(others@)[m]),
{
    let ghost lv = rules_view(list@);
    let mut others: Vec<(Word, Word)> = Vec::new();
    let mut j: usize = 0;
    while j < list.len()
        invariant
            j <= list@.len(),
            i < list@.len(),
            rules_ok(list@, n),
            rules_ok(others@, n),
            lv == rules_view(list@),
            forall|q: int| 0 <= q < j && q != i ==> rules_view(others@).contains(#[trigger] lv[q]),
            forall|m: int| 0 <= m < others@.len() ==> lv.contains(#[trigger] rules_view(others@)[m]),
        decreases list@.len() - j,
    {
        if j != i {
            let c = copy_rule(&list[j]);
            assert(rule_ok((list@[j as int].0@, list@[j as int].1@), n));
            let ghost prev = others@;
            others.push(c);
            proof {
                let ro = rules_view(others@);
                let rp = rules_view(prev);
                assert(ro[ro.len() - 1] == lv[j as int]);
                assert forall|m: int| 0 <= m < others@.len() implies rule_ok((#[trigger] others@[m].0@, others@[m].1@), n) by {
                    if m < others@.len() - 1 {
                        assert(others@[m] == prev[m]);
                    }
                }
                assert forall|q: int| 0 <= q < j + 1 && q != i implies ro.contains(#[trigger] lv[q]) by {
                    if q < j {
                        let m = choose|m: int| 0 <= m < rp.len() && rp[m] == lv[q];
                        assert(ro[m] == rp[m]);
                    }
                }
                assert forall|m: int| 0 <= m < ro.len() implies lv.contains(#[trigger] ro[m]) by {
                    if m < ro.len() - 1 {
                        assert(ro[m] == rp[m]);
                        assert(lv.contains(rp[m]));
                    } else {
                        assert(lv[j as int] == ro[m]);
                    }
                }
            }
        }
        j = j + 1;
    }
    others
}

/// The rules of `rules` whose left-hand side is shorter than `len`, in order.
fn rules_shorter(rules: &Vec<(Word, Word)>, len: usize, Ghost(n): Ghost<nat>) -> (shorter: Vec<(Word, Word)>)
    requires
        rules_ok(rules@, n),
    ensures
        rules_ok(shorter@, n),
        forall|m: int| 0 <= m < shorter@.len() ==> rules_view(rules@).contains(#[trigger] rules_view(shorter@)[m])
            && shorter@[m].0@.len() < len,
{
    let mut shorter: Vec<(Word, Word)> = Vec::new();
    let mut m: usize = 0;
    while m < rules.len()
        invariant
            m <= rules@.len(),
            rules_ok(rules@, n),
            rules_ok(shorter@, n),
            forall|k: int| 0 <= k < shorter@.len() ==> rules_view(rules@).contains(#[trigger] rules_view(shorter@)[k])
                && shorter@[k].0@.len() < len,
        decreases rules@.len() - m,
    {
        if rules[m].0.len() < len {
            let c = copy_rule(&rules[m]);
            assert(rule_ok((rules@[m as int].0@, rules@[m as int].1@), n));
            let ghost prev = shorter@;
            shorter.push(c);
            proof {
                let rsh = rules_view(shorter@);
                let rp = rules_view(prev);
                assert forall|k: int| 0 <= k < shorter@.len() implies rule_ok((#[trigger] shorter@[k].0@, shorter@[k].1@), n) by {
                    if k < shorter@.len() - 1 {
                        assert(shorter@[k] == prev[k]);
                    }
                }
                assert forall|k: int| 0 <= k < shorter@.len() implies rules_view(rules@).contains(#[trigger] rsh[k])
                    && shorter@[k].0@.len() < len by {
                    if k < shorter@.len() - 1 {
                        assert(rsh[k] == rp[k]);
                        assert(shorter@[k] == prev[k]);
                    } else {
                        assert(rsh[k] == rules_view(rules@)[m as int]);
                    }
                }
            }
        }
        m = m + 1;
    }
    shorter
}

#[verifier::rlimit(100)]
fn interreduce(rules_set: Vec<(Word, Word)>, Ghost(n): Ghost<nat>) -> (r: Vec<(Word, Word)>)
    requires
        rules_ok(rules_set@, n),
    ensures
        rules_ok(r@, n),
        rules_distinct(rules_view(r@)),
        forall|k: int| 0 <= k < r@.len() ==> irreducible(rules_view(rules_set@), #[trigger] r@[k].1@),
        forall|k: int| 0 <= k < r@.len() ==> lhs_sides(rules_view(rules_set@)).contains(#[trigger] r@[k].0@),
        forall|i: int| 0 <= i < rules_set@.len() && lhs_minimal(rules_view(rules_set@), #[trigger] rules_view(rules_set@)[i])
            ==> exists|k: int| 0 <= k < r@.len() && #[trigger] r@[k].0@ == rules_view(rules_set@)[i].0 && reduced_by_others(
            rules_view(rules_set@),
            rules_view(rules_set@)[i],
            r@[k].1@,
        ),
{
    let ghost rs = rules_view(rules_set@);
    let rules_list = sort_rules(rules_set, Ghost(n));
    let ghost lv = rules_view(rules_list@);
    let mut cleaned: Vec<(Word, Word)> = Vec::new();
    let mut i: usize = 0;
    while i < rules_list.len()
        invariant
            i <= rules_list.len(),
            rules_ok(rules_list@, n),
            rules_ok(cleaned@, n),
            rules_distinct(rules_view(cleaned@)),
            forall|k: int| 0 <= k < cleaned@.len() ==> irreducible(rs, #[trigger] cleaned@[k].1@),
            lv == rules_view(rules_list@),
            forall|j: int| 0 <= j < rs.len() ==> lv.contains(#[trigger] rs[j]),
            forall|q: int| 0 <= q < lv.len() ==> rs.contains(#[trigger] lv[q]),
            forall|k: int| 0 <= k < cleaned@.len() ==> lhs_sides(rs).contains(#[trigger] cleaned@[k].0@),
            forall|q: int| #![trigger lv[q]] 0 <= q < i && lhs_minimal(rs, lv[q]) ==> exists|k: int| 0 <= k < cleaned@.len()
                && #[trigger] cleaned@[k].0@ == lv[q].0 && reduced_by_others(rs, lv[q], cleaned@[k].1@),
        decreases rules_list.len() - i,
    {
        let lhs = &rules_list[i].0;
        let rhs = &rules_list[i].1;
        assert(rule_ok((lhs@, rhs@), n));
        assert(lv[i as int] == (lhs@, rhs@));
        let ghost prev_cleaned0 = cleaned@;

        // All rules except this one.
        let others = rules_except(&rules_list, i, Ghost(n));
        proof {
            lemma_rules_ok_facts(others@, n);
            lemma_rules_ok_facts(rules_list@, n);
        }
        let new_rhs = reduce_with_rules(rhs, &others);
        proof {
            lemma_reduced_below(lhs@, rhs@, new_rhs@);
            let ro = rules_view(others@);
            assert forall|m: int, p: int| 0 <= m < rs.len() implies !#[trigger] occurs_at(rs[m].0, new_rhs@, p) by {
                assert(lv.contains(rs[m]));
                let q = choose|q: int| 0 <= q < lv.len() && lv[q] == rs[m];
                if q != i {
                    assert(ro.contains(lv[q]));
                    let mm = choose|mm: int| 0 <= mm < ro.len() && ro[mm] == lv[q];
                    assert(!occurs_at(ro[mm].0, new_rhs@, p));
                } else if occurs_at(rs[m].0, new_rhs@, p) {
                    assert(new_rhs@.len() <= lhs@.len());
                    assert(new_rhs@ =~= new_rhs@.subrange(p, p + lhs@.len()));
                }
            }
        }

        // Rules with a shorter left-hand side.
        let shorter = rules_shorter(&others, lhs.len(), Ghost(n));
        proof {
            lemma_rules_ok_facts(shorter@, n);
        }
        let lhs_reduced = reduce_with_rules(lhs, &shorter);
        proof {
            if lhs_minimal(rs, lv[i as int]) {
                let rsh = rules_view(shorter@);
                let ro = rules_view(others@);
                assert forall|k: int, p: int| 0 <= k < rsh.len() implies !#[trigger] occurs_at(rsh[k].0, lhs@, p) by {
                    assert(ro.contains(rsh[k]));
                    let mm = choose|mm: int| 0 <= mm < ro.len() && ro[mm] == rsh[k];
                    assert(lv.contains(ro[mm]));
                    let q = choose|q: int| 0 <= q < lv.len() && lv[q] == ro[mm];
                    assert(rs.contains(lv[q]));
                    let jj = choose|jj: int| 0 <= jj < rs.len() && rs[jj] == lv[q];
                    assert(!occurs_at(rs[jj].0, lv[i as int].0, p));
                }
                assert(lhs_reduced@ == lhs@);
            }
        }

        let ghost mut kept = false;
        let mut redundant = false;
        if !words_equal(&lhs_reduced, lhs) {
            let lhs_fully = reduce_with_rules(lhs, &others);
            if words_equal(&lhs_fully, &new_rhs) {
                redundant = true;
            }
        }
        if !redundant && !words_equal(&new_rhs, lhs) {
            proof {
                let g = group_relations(n);
                lemma_conv_lift(g, rules_view(others@), rhs@, new_rhs@);
                lemma_conv_trans(g, lhs@, rhs@, new_rhs@);
                lemma_conv_sym(g, lhs@, new_rhs@);
            }
            if let Some(o) = orient(lhs, &new_rhs) {
                proof {
                    assert(o.0@ == lhs@ && o.1@ == new_rhs@);
                }
                if !contains_rule(&cleaned, &o) {
                    let ghost prev_cleaned = cleaned@;
                    cleaned.push(o);
                    proof {
                        lemma_push_distinct(prev_cleaned, cleaned@);
                        assert(cleaned@[cleaned@.len() - 1] == o);
                        assert forall|k: int| 0 <= k < cleaned@.len() implies irreducible(rs, #[trigger] cleaned@[k].1@) by {
                            if k < cleaned@.len() - 1 {
                                assert(cleaned@[k] == prev_cleaned[k]);
                            }
                        }
                        assert forall|k: int| 0 <= k < cleaned@.len() implies lhs_sides(rs).contains(#[trigger] cleaned@[k].0@) by {
                            if k < cleaned@.len() - 1 {
                                assert(cleaned@[k] == prev_cleaned[k]);
                            } else {
                                assert(rs.contains(lv[i as int]));
                                let jj = choose|jj: int| 0 <= jj < rs.len() && rs[jj] == lv[i as int];
                                assert(lhs_sides(rs)[jj] == cleaned@[k].0@);
                            }
                        }
                    }
                    assert(rules_ok(cleaned@, n)) by {
                        assert forall|q: int| 0 <= q < cleaned@.len() implies rule_ok(
                            (#[trigger] cleaned@[q].0@, cleaned@[q].1@),
                            n,
                        ) by {
                            if q < cleaned@.len() - 1 {
                                assert(cleaned@[q] == prev_cleaned[q]);
                            }
                        }
                    }
                    proof {
                        assert(rules_view(cleaned@)[cleaned@.len() - 1] == (lhs@, new_rhs@));
                    }
                }
                proof {
                    assert(exists|k: int| 0 <= k < cleaned@.len() && #[trigger] rules_view(cleaned@)[k] == (lhs@, new_rhs@));
                    kept = true;
                }
            }
        }
        proof {
            assert forall|k: int| 0 <= k < prev_cleaned0.len() implies cleaned@[k] == prev_cleaned0[k] by {}
            if lhs_minimal(rs, lv[i as int]) {
                assert(kept);
                let ro = rules_view(others@);
                assert(reduced_by_others(rs, lv[i as int], new_rhs@)) by {
                    assert forall|j: int, p: int| 0 <= j < rs.len() && rs[j] != lv[i as int] implies !#[trigger] occurs_at(
                        rs[j].0,
                        new_rhs@,
                        p,
                    ) by {
                        assert(lv.contains(rs[j]));
                        let q = choose|q: int| 0 <= q < lv.len() && lv[q] == rs[j];
                        assert(q != i);
                        assert(ro.contains(lv[q]));
                        let mm = choose|mm: int| 0 <= mm < ro.len() && ro[mm] == lv[q];
                        assert(!occurs_at(ro[mm].0, new_rhs@, p));
                    }
                }
                let kk = choose|kk: int| 0 <= kk < cleaned@.len() && rules_view(cleaned@)[kk] == (lhs@, new_rhs@);
                assert(cleaned@[kk].0@ == lv[i as int].0 && reduced_by_others(rs, lv[i as int], cleaned@[kk].1@));
            }
            assert forall|q: int| #![trigger lv[q]] 0 <= q < i + 1 && lhs_minimal(rs, lv[q]) implies exists|k: int| 0 <= k < cleaned@.len()
                && #[trigger] cleaned@[k].0@ == lv[q].0 && reduced_by_others(rs, lv[q], cleaned@[k].1@) by {
                if q < i {
                    let k0 = choose|k0: int| 0 <= k0 < prev_cleaned0.len() && #[trigger] prev_cleaned0[k0].0@ == lv[q].0
                        && reduced_by_others(rs, lv[q], prev_cleaned0[k0].1@);
                    assert(cleaned@[k0] == prev_cleaned0[k0]);
                }
            }
        }
        i = i + 1;
    }
    proof {
        assert forall|ii: int| #![trigger rs[ii]] 0 <= ii < rs.len() && lhs_minimal(rs, rs[ii]) implies exists|k: int| 0 <= k < cleaned@.len()
            && #[trigger] cleaned@[k].0@ == rs[ii].0 && reduced_by_others(rs, rs[ii], cleaned@[k].1@) by {
            assert(lv.contains(rs[ii]));
            let q = choose|q: int| 0 <= q < lv.len() && lv[q] == rs[ii];
            assert(lhs_minimal(rs, lv[q]));
        }
    }
    cleaned
}

/// Render a word for display: `e` for the empty word, else its letters.
pub fn word_to_string(w: &[u8]) -> (r: String)
    ensures
        w@.len() == 0 ==> r@ == "e"@,
        w@.len() > 0 && (forall|i: int| 0 <= i < w@.len() ==> #[trigger] w@[i] < 128) ==> r@ == Seq::new(
            w@.len(),
            |i: int| w@[i] as char,
        ),
{
    if w.len() == 0 {
        "e".to_owned()
    } else {
        utf8_lossy(w)
    }
}

/// Read a word from a string, byte by byte.
pub fn string_to_word(s: &str) -> (r: Word)
    ensures
        r@ == s.spec_bytes(),
{
    copy_word(s.as_bytes())
}

/// `String::from_utf8_lossy`: bytes below 128 decode one for one to the
/// characters with the same code; other bytes are decoded as UTF-8 with
/// invalid sequences replaced, which this contract leaves unstated.
#[verifier::external_body]
fn utf8_lossy(w: &[u8]) -> (r: String)
    ensures
        (forall|i: int| 0 <= i < w@.len() ==> #[trigger] w@[i] < 128) ==> r@ == Seq::new(
            w@.len(),
            |i: int| w@[i] as char,
        ),
{
    String::from_utf8_lossy(w).into_owned()
}

} // verus!
