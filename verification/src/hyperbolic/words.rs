//! Words over a byte alphabet, string rewriting with ordered rule lists,
//! the equivalence a rule list generates, and the shortlex order that
//! orients rules so that rewriting always terminates.

use vstd::prelude::*;

verus! {

/// A rule list as plain values: `(lhs, rhs)` pairs, `lhs` rewrites to `rhs`.
pub type Rules = Seq<(Seq<u8>, Seq<u8>)>;

/// `l` occurs in `w` starting at position `p`.
pub open spec fn occurs_at(l: Seq<u8>, w: Seq<u8>, p: int) -> bool {
    &&& 0 <= p
    &&& p + l.len() <= w.len()
    &&& w.subrange(p, p + l.len()) == l
}

/// `w` with the `n` letters starting at `p` replaced by `r`.
pub open spec fn splice(w: Seq<u8>, p: int, n: int, r: Seq<u8>) -> Seq<u8> {
    w.subrange(0, p) + r + w.subrange(p + n, w.len() as int)
}

/// Rule `k` rewrites `u` into `v` at position `p`.
pub open spec fn rewrites_at(rules: Rules, k: int, u: Seq<u8>, v: Seq<u8>, p: int) -> bool {
    &&& 0 <= k < rules.len()
    &&& occurs_at(rules[k].0, u, p)
    &&& v == splice(u, p, rules[k].0.len() as int, rules[k].1)
}

/// One rewriting step turns `u` into `v`.
pub open spec fn one_step(rules: Rules, u: Seq<u8>, v: Seq<u8>) -> bool {
    exists|k: int, p: int| rewrites_at(rules, k, u, v, p)
}

/// `u` and `v` differ by one rewriting step taken in either direction.
pub open spec fn conv_step(rules: Rules, u: Seq<u8>, v: Seq<u8>) -> bool {
    one_step(rules, u, v) || one_step(rules, v, u)
}

pub open spec fn path_link(rules: Rules, path: Seq<Seq<u8>>, i: int) -> bool {
    conv_step(rules, path[i], path[i + 1])
}

/// `path` leads from `u` to `v` by two-way rewriting steps.
pub open spec fn is_path(rules: Rules, path: Seq<Seq<u8>>, u: Seq<u8>, v: Seq<u8>) -> bool {
    &&& path.len() >= 1
    &&& path[0] == u
    &&& path[path.len() - 1] == v
    &&& forall|i: int| 0 <= i < path.len() - 1 ==> #[trigger] path_link(rules, path, i)
}

/// `u` and `v` are equal in the monoid presented by `rules`
/// (the congruence that the rules generate).
pub open spec fn convertible(rules: Rules, u: Seq<u8>, v: Seq<u8>) -> bool {
    exists|path: Seq<Seq<u8>>| is_path(rules, path, u, v)
}

pub open spec fn forward_link(rules: Rules, path: Seq<Seq<u8>>, i: int) -> bool {
    one_step(rules, path[i], path[i + 1])
}

/// `path` leads from `u` to `v` by rewriting steps, each replacing a
/// left-hand side by its right-hand side.
pub open spec fn is_forward_path(rules: Rules, path: Seq<Seq<u8>>, u: Seq<u8>, v: Seq<u8>) -> bool {
    &&& path.len() >= 1
    &&& path[0] == u
    &&& path[path.len() - 1] == v
    &&& forall|i: int| 0 <= i < path.len() - 1 ==> #[trigger] forward_link(rules, path, i)
}

/// `u` rewrites to `v` in zero or more forward steps.
pub open spec fn reduces_to(rules: Rules, u: Seq<u8>, v: Seq<u8>) -> bool {
    exists|path: Seq<Seq<u8>>| #[trigger] is_forward_path(rules, path, u, v)
}

pub proof fn lemma_reduces_refl(rules: Rules, u: Seq<u8>)
    ensures
        reduces_to(rules, u, u),
{
    assert(is_forward_path(rules, seq![u], u, u));
}

/// A forward rewrite followed by one more step is a forward rewrite.
pub proof fn lemma_reduces_step(rules: Rules, u: Seq<u8>, v: Seq<u8>, w: Seq<u8>)
    requires
        reduces_to(rules, u, v),
        one_step(rules, v, w),
    ensures
        reduces_to(rules, u, w),
{
    let p = choose|path: Seq<Seq<u8>>| #[trigger] is_forward_path(rules, path, u, v);
    let q = p.push(w);
    assert forall|i: int| 0 <= i < q.len() - 1 implies #[trigger] forward_link(rules, q, i) by {
        if i < p.len() - 1 {
            assert(forward_link(rules, p, i));
            assert(q[i] == p[i] && q[i + 1] == p[i + 1]);
        } else {
            assert(q[i] == v && q[i + 1] == w);
        }
    }
    assert(is_forward_path(rules, q, u, w));
}

/// A forward rewrite stays one under a rule list holding every rule of the first.
pub proof fn lemma_reduces_mono(r1: Rules, r2: Rules, u: Seq<u8>, v: Seq<u8>)
    requires
        reduces_to(r1, u, v),
        forall|k: int| 0 <= k < r1.len() ==> r2.contains(#[trigger] r1[k]),
    ensures
        reduces_to(r2, u, v),
{
    let p = choose|path: Seq<Seq<u8>>| #[trigger] is_forward_path(r1, path, u, v);
    assert forall|i: int| 0 <= i < p.len() - 1 implies #[trigger] forward_link(r2, p, i) by {
        assert(forward_link(r1, p, i));
        let (k, q) = choose|k: int, q: int| #[trigger] rewrites_at(r1, k, p[i], p[i + 1], q);
        assert(r2.contains(r1[k]));
        let k2 = choose|k2: int| 0 <= k2 < r2.len() && r2[k2] == r1[k];
        assert(rewrites_at(r2, k2, p[i], p[i + 1], q));
    }
    assert(is_forward_path(r2, p, u, v));
}

/// Forward rewrites chain.
pub proof fn lemma_reduces_trans(rules: Rules, u: Seq<u8>, v: Seq<u8>, w: Seq<u8>)
    requires
        reduces_to(rules, u, v),
        reduces_to(rules, v, w),
    ensures
        reduces_to(rules, u, w),
{
    let p = choose|path: Seq<Seq<u8>>| #[trigger] is_forward_path(rules, path, u, v);
    let q = choose|path: Seq<Seq<u8>>| #[trigger] is_forward_path(rules, path, v, w);
    let r = p + q.subrange(1, q.len() as int);
    assert forall|i: int| 0 <= i < r.len() - 1 implies #[trigger] forward_link(rules, r, i) by {
        if i < p.len() - 1 {
            assert(forward_link(rules, p, i));
            assert(r[i] == p[i] && r[i + 1] == p[i + 1]);
        } else {
            let j = i - (p.len() - 1);
            assert(forward_link(rules, q, j));
            assert(r[i] == q[j]);
            assert(r[i + 1] == q[j + 1]);
        }
    }
    assert(is_forward_path(rules, r, u, w));
}

/// A forward rewrite that moves takes a first step.
pub proof fn lemma_reduces_first(rules: Rules, u: Seq<u8>, v: Seq<u8>) -> (x: Seq<u8>)
    requires
        reduces_to(rules, u, v),
        u != v,
    ensures
        one_step(rules, u, x),
        reduces_to(rules, x, v),
{
    let p = choose|path: Seq<Seq<u8>>| #[trigger] is_forward_path(rules, path, u, v);
    assert(p.len() >= 2);
    let q = p.subrange(1, p.len() as int);
    assert(forward_link(rules, p, 0));
    assert forall|i: int| 0 <= i < q.len() - 1 implies #[trigger] forward_link(rules, q, i) by {
        assert(forward_link(rules, p, i + 1));
    }
    assert(is_forward_path(rules, q, p[1], v));
    p[1]
}

/// One step followed by a forward rewrite is a forward rewrite.
pub proof fn lemma_reduces_prepend(rules: Rules, u: Seq<u8>, x: Seq<u8>, v: Seq<u8>)
    requires
        one_step(rules, u, x),
        reduces_to(rules, x, v),
    ensures
        reduces_to(rules, u, v),
{
    lemma_reduces_refl(rules, u);
    lemma_reduces_step(rules, u, u, x);
    lemma_reduces_trans(rules, u, x, v);
}

/// A forward rewrite stays one when the same letters are added on both sides.
pub proof fn lemma_reduces_context(rules: Rules, u: Seq<u8>, v: Seq<u8>, x: Seq<u8>, y: Seq<u8>)
    requires
        reduces_to(rules, u, v),
    ensures
        reduces_to(rules, x + u + y, x + v + y),
{
    let p = choose|path: Seq<Seq<u8>>| #[trigger] is_forward_path(rules, path, u, v);
    let q = p.map_values(|w: Seq<u8>| x + w + y);
    assert forall|i: int| 0 <= i < q.len() - 1 implies #[trigger] forward_link(rules, q, i) by {
        assert(forward_link(rules, p, i));
        lemma_step_context(rules, p[i], p[i + 1], x, y);
    }
    assert(is_forward_path(rules, q, x + u + y, x + v + y));
}

/// A forward rewrite is a conversion.
pub proof fn lemma_reduces_convertible(rules: Rules, u: Seq<u8>, v: Seq<u8>)
    requires
        reduces_to(rules, u, v),
    ensures
        convertible(rules, u, v),
{
    let p = choose|path: Seq<Seq<u8>>| #[trigger] is_forward_path(rules, path, u, v);
    assert forall|i: int| 0 <= i < p.len() - 1 implies #[trigger] path_link(rules, p, i) by {
        assert(forward_link(rules, p, i));
    }
    assert(is_path(rules, p, u, v));
}

/// No rule's left-hand side occurs anywhere in `w`.
pub open spec fn irreducible(rules: Rules, w: Seq<u8>) -> bool {
    forall|k: int, p: int| 0 <= k < rules.len() ==> !#[trigger] occurs_at(rules[k].0, w, p)
}

// ---------------------------------------------------------------------------
// The equivalence generated by a rule list
// ---------------------------------------------------------------------------

pub proof fn lemma_conv_refl(rules: Rules, u: Seq<u8>)
    ensures
        convertible(rules, u, u),
{
    let path = seq![u];
    assert(is_path(rules, path, u, u));
}

pub proof fn lemma_conv_from_step(rules: Rules, u: Seq<u8>, v: Seq<u8>)
    requires
        conv_step(rules, u, v),
    ensures
        convertible(rules, u, v),
{
    let path = seq![u, v];
    assert(path_link(rules, path, 0));
    assert(is_path(rules, path, u, v));
}

pub proof fn lemma_conv_from_rewrite(rules: Rules, k: int, u: Seq<u8>, v: Seq<u8>, p: int)
    requires
        rewrites_at(rules, k, u, v, p),
    ensures
        convertible(rules, u, v),
        convertible(rules, v, u),
{
    assert(one_step(rules, u, v));
    lemma_conv_from_step(rules, u, v);
    lemma_conv_from_step(rules, v, u);
}

pub proof fn lemma_conv_trans(rules: Rules, u: Seq<u8>, v: Seq<u8>, w: Seq<u8>)
    requires
        convertible(rules, u, v),
        convertible(rules, v, w),
    ensures
        convertible(rules, u, w),
{
    let p1 = choose|path: Seq<Seq<u8>>| is_path(rules, path, u, v);
    let p2 = choose|path: Seq<Seq<u8>>| is_path(rules, path, v, w);
    let path = p1 + p2.drop_first();
    let n1 = p1.len() as int;
    assert forall|i: int| 0 <= i < path.len() - 1 implies #[trigger] path_link(rules, path, i) by {
        if i < n1 - 1 {
            assert(path_link(rules, p1, i));
        } else {
            let j = i - n1 + 1;
            assert(path_link(rules, p2, j));
            assert(path[i] == p2[j]);
            assert(path[i + 1] == p2[j + 1]);
        }
    }
    if p2.len() == 1 {
        assert(path[path.len() - 1] == w);
    } else {
        assert(path[path.len() - 1] == p2[p2.len() - 1]);
    }
    assert(is_path(rules, path, u, w));
}

pub proof fn lemma_conv_sym(rules: Rules, u: Seq<u8>, v: Seq<u8>)
    requires
        convertible(rules, u, v),
    ensures
        convertible(rules, v, u),
{
    let p = choose|path: Seq<Seq<u8>>| is_path(rules, path, u, v);
    let n = p.len() as int;
    let path = Seq::new(n as nat, |i: int| p[n - 1 - i]);
    assert forall|i: int| 0 <= i < path.len() - 1 implies #[trigger] path_link(rules, path, i) by {
        assert(path_link(rules, p, n - 2 - i));
    }
    assert(is_path(rules, path, v, u));
}

/// A rewriting step stays a step when the same letters are added on both sides.
pub proof fn lemma_step_context(rules: Rules, a: Seq<u8>, b: Seq<u8>, x: Seq<u8>, y: Seq<u8>)
    requires
        one_step(rules, a, b),
    ensures
        one_step(rules, x + a + y, x + b + y),
{
    let (k, p) = choose|k: int, p: int| rewrites_at(rules, k, a, b, p);
    let l = rules[k].0;
    let r = rules[k].1;
    let xa = x + a + y;
    let q = p + x.len();
    assert(xa.subrange(q, q + l.len()) =~= a.subrange(p, p + l.len()));
    assert(x + b + y =~= splice(xa, q, l.len() as int, r));
    assert(rewrites_at(rules, k, xa, x + b + y, q));
}

pub proof fn lemma_conv_context(rules: Rules, u: Seq<u8>, v: Seq<u8>, x: Seq<u8>, y: Seq<u8>)
    requires
        convertible(rules, u, v),
    ensures
        convertible(rules, x + u + y, x + v + y),
{
    let p = choose|path: Seq<Seq<u8>>| is_path(rules, path, u, v);
    let path = p.map_values(|w: Seq<u8>| x + w + y);
    assert forall|i: int| 0 <= i < path.len() - 1 implies #[trigger] path_link(rules, path, i) by {
        assert(path_link(rules, p, i));
        if one_step(rules, p[i], p[i + 1]) {
            lemma_step_context(rules, p[i], p[i + 1], x, y);
        } else {
            lemma_step_context(rules, p[i + 1], p[i], x, y);
        }
    }
    assert(is_path(rules, path, x + u + y, x + v + y));
}

/// Every rule of `r2` holds in the monoid presented by `r1`.
pub open spec fn rules_hold_in(r1: Rules, r2: Rules) -> bool {
    forall|k: int| 0 <= k < r2.len() ==> convertible(r1, #[trigger] r2[k].0, r2[k].1)
}

proof fn lemma_lift_one_step(r1: Rules, r2: Rules, a: Seq<u8>, b: Seq<u8>)
    requires
        rules_hold_in(r1, r2),
        one_step(r2, a, b),
    ensures
        convertible(r1, a, b),
{
    let (k, p) = choose|k: int, p: int| rewrites_at(r2, k, a, b, p);
    let l = r2[k].0;
    let r = r2[k].1;
    let x = a.subrange(0, p);
    let y = a.subrange(p + l.len(), a.len() as int);
    assert(a =~= x + l + y);
    assert(b =~= x + r + y);
    assert(convertible(r1, r2[k].0, r2[k].1));
    lemma_conv_context(r1, l, r, x, y);
}

proof fn lemma_lift_path(r1: Rules, r2: Rules, path: Seq<Seq<u8>>, u: Seq<u8>, v: Seq<u8>)
    requires
        rules_hold_in(r1, r2),
        is_path(r2, path, u, v),
    ensures
        convertible(r1, u, v),
    decreases path.len(),
{
    if path.len() == 1 {
        lemma_conv_refl(r1, u);
    } else {
        let n = path.len() as int;
        let prefix = path.drop_last();
        let mid = path[n - 2];
        assert forall|i: int| 0 <= i < prefix.len() - 1 implies #[trigger] path_link(
            r2,
            prefix,
            i,
        ) by {
            assert(path_link(r2, path, i));
        }
        assert(is_path(r2, prefix, u, mid));
        lemma_lift_path(r1, r2, prefix, u, mid);
        assert(path_link(r2, path, n - 2));
        if one_step(r2, mid, v) {
            lemma_lift_one_step(r1, r2, mid, v);
        } else {
            lemma_lift_one_step(r1, r2, v, mid);
            lemma_conv_sym(r1, v, mid);
        }
        lemma_conv_trans(r1, u, mid, v);
    }
}

/// What is equal under `r2` is equal under `r1` when every rule of `r2` holds under `r1`.
pub proof fn lemma_conv_lift(r1: Rules, r2: Rules, u: Seq<u8>, v: Seq<u8>)
    requires
        rules_hold_in(r1, r2),
        convertible(r2, u, v),
    ensures
        convertible(r1, u, v),
{
    let path = choose|path: Seq<Seq<u8>>| is_path(r2, path, u, v);
    lemma_lift_path(r1, r2, path, u, v);
}

// ---------------------------------------------------------------------------
// Shortlex order and the termination measure of rewriting
// ---------------------------------------------------------------------------

/// Every letter gets a rank below 256.
pub open spec fn rank_bounded(rank: spec_fn(u8) -> nat) -> bool {
    forall|c: u8| #[trigger] rank(c) < 256
}

/// `u` and `v` agree in rank up to position `i`, where `u` has the smaller rank.
pub open spec fn lex_lt_at(rank: spec_fn(u8) -> nat, u: Seq<u8>, v: Seq<u8>, i: int) -> bool {
    &&& 0 <= i < u.len()
    &&& i < v.len()
    &&& forall|j: int| 0 <= j < i ==> rank(#[trigger] u[j]) == rank(v[j])
    &&& rank(u[i]) < rank(v[i])
}

/// Shortlex order: shorter words first, equal lengths compared letter by letter by rank.
pub open spec fn shortlex_lt(rank: spec_fn(u8) -> nat, u: Seq<u8>, v: Seq<u8>) -> bool {
    if u.len() != v.len() {
        u.len() < v.len()
    } else {
        exists|i: int| lex_lt_at(rank, u, v, i)
    }
}

/// Each rule's right-hand side is shortlex-smaller than its left-hand side.
pub open spec fn oriented(rank: spec_fn(u8) -> nat, rules: Rules) -> bool {
    forall|k: int| 0 <= k < rules.len() ==> shortlex_lt(rank, #[trigger] rules[k].1, rules[k].0)
}

/// The word read as a base-256 number of letter ranks.
pub open spec fn word_value(rank: spec_fn(u8) -> nat, w: Seq<u8>) -> nat
    decreases w.len(),
{
    if w.len() == 0 {
        0
    } else {
        word_value(rank, w.drop_last()) * 256 + rank(w.last())
    }
}

proof fn lemma_value_eq(rank: spec_fn(u8) -> nat, a: Seq<u8>, b: Seq<u8>)
    requires
        a.len() == b.len(),
        forall|j: int| 0 <= j < a.len() ==> rank(#[trigger] a[j]) == rank(b[j]),
    ensures
        word_value(rank, a) == word_value(rank, b),
    decreases a.len(),
{
    if a.len() > 0 {
        let n = a.len() as int;
        assert forall|j: int| 0 <= j < n - 1 implies rank(#[trigger] a.drop_last()[j]) == rank(
            b.drop_last()[j],
        ) by {
            assert(rank(a[j]) == rank(b[j]));
        }
        lemma_value_eq(rank, a.drop_last(), b.drop_last());
        assert(rank(a[n - 1]) == rank(b[n - 1]));
    }
}

pub(crate) proof fn lemma_value_lt(rank: spec_fn(u8) -> nat, v: Seq<u8>, u: Seq<u8>, i: int)
    requires
        rank_bounded(rank),
        v.len() == u.len(),
        lex_lt_at(rank, v, u, i),
    ensures
        word_value(rank, v) < word_value(rank, u),
    decreases v.len(),
{
    let n = v.len() as int;
    let dv = v.drop_last();
    let du = u.drop_last();
    assert(rank(v[n - 1]) < 256);
    if i < n - 1 {
        assert forall|j: int| 0 <= j < i implies rank(#[trigger] dv[j]) == rank(du[j]) by {
            assert(rank(v[j]) == rank(u[j]));
        }
        assert(lex_lt_at(rank, dv, du, i));
        lemma_value_lt(rank, dv, du, i);
    } else {
        assert forall|j: int| 0 <= j < n - 1 implies rank(#[trigger] dv[j]) == rank(du[j]) by {
            assert(rank(v[j]) == rank(u[j]));
        }
        lemma_value_eq(rank, dv, du);
    }
}

/// A rewriting step with an oriented rule makes the word shorter, or keeps
/// its length and lowers its value: rewriting always terminates.
pub proof fn lemma_rewrite_decreases(
    rank: spec_fn(u8) -> nat,
    rules: Rules,
    k: int,
    u: Seq<u8>,
    v: Seq<u8>,
    p: int,
)
    requires
        rank_bounded(rank),
        oriented(rank, rules),
        rewrites_at(rules, k, u, v, p),
    ensures
        v.len() < u.len() || (v.len() == u.len() && word_value(rank, v) < word_value(rank, u)),
{
    let l = rules[k].0;
    let r = rules[k].1;
    assert(shortlex_lt(rank, rules[k].1, rules[k].0));
    assert(v.len() == u.len() - l.len() + r.len());
    if r.len() == l.len() {
        let i = choose|i: int| lex_lt_at(rank, r, l, i);
        assert(u.subrange(p, p + l.len()) == l);
        assert forall|j: int| 0 <= j < p + i implies rank(#[trigger] v[j]) == rank(u[j]) by {
            if j < p {
                assert(v[j] == u[j]);
            } else {
                assert(v[j] == r[j - p]);
                assert(u[j] == u.subrange(p, p + l.len())[j - p]);
                assert(rank(r[j - p]) == rank(l[j - p]));
            }
        }
        assert(v[p + i] == r[i]);
        assert(u[p + i] == u.subrange(p, p + l.len())[i]);
        assert(lex_lt_at(rank, v, u, p + i));
        lemma_value_lt(rank, v, u, p + i);
    }
}

/// Two different words of equal length whose differing letters have
/// different ranks are comparable in shortlex order.
pub proof fn lemma_shortlex_total(rank: spec_fn(u8) -> nat, u: Seq<u8>, v: Seq<u8>)
    requires
        u.len() == v.len(),
        u != v,
        forall|j: int| 0 <= j < u.len() && u[j] != v[j] ==> rank(#[trigger] u[j]) != rank(v[j]),
    ensures
        shortlex_lt(rank, u, v) || shortlex_lt(rank, v, u),
{
    let i = lemma_first_difference(u, v);
    if rank(u[i]) < rank(v[i]) {
        assert(lex_lt_at(rank, u, v, i));
    } else {
        assert forall|j: int| 0 <= j < i implies rank(#[trigger] v[j]) == rank(u[j]) by {
            assert(u[j] == v[j]);
        }
        assert(lex_lt_at(rank, v, u, i));
    }
}

/// The first position where two different words of equal length differ.
pub proof fn lemma_first_difference(u: Seq<u8>, v: Seq<u8>) -> (i: int)
    requires
        u.len() == v.len(),
        u != v,
    ensures
        0 <= i < u.len(),
        u[i] != v[i],
        forall|j: int| 0 <= j < i ==> u[j] == v[j],
    decreases u.len(),
{
    if u.len() == 0 {
        assert(u =~= v);
        0
    } else if u[0] != v[0] {
        0
    } else {
        if u.drop_first() == v.drop_first() {
            assert(u =~= v) by {
                assert forall|j: int| 0 <= j < u.len() implies u[j] == v[j] by {
                    if j > 0 {
                        assert(u[j] == u.drop_first()[j - 1]);
                        assert(v[j] == v.drop_first()[j - 1]);
                    }
                }
            }
        }
        let i = lemma_first_difference(u.drop_first(), v.drop_first());
        assert forall|j: int| 0 <= j < i + 1 implies u[j] == v[j] by {
            if j > 0 {
                assert(u[j] == u.drop_first()[j - 1]);
                assert(v[j] == v.drop_first()[j - 1]);
            }
        }
        assert(u[i + 1] == u.drop_first()[i]);
        assert(v[i + 1] == v.drop_first()[i]);
        i + 1
    }
}

// ---------------------------------------------------------------------------
// Executable word operations
// ---------------------------------------------------------------------------

/// Copy a slice of letters into a new word.
pub fn copy_word(w: &[u8]) -> (r: Vec<u8>)
    ensures
        r@ == w@,
{
    let mut r: Vec<u8> = Vec::new();
    let mut i: usize = 0;
    while i < w.len()
        invariant
            i <= w.len(),
            r@ == w@.subrange(0, i as int),
        decreases w.len() - i,
    {
        r.push(w[i]);
        i = i + 1;
        assert(r@ =~= w@.subrange(0, i as int));
    }
    assert(r@ =~= w@);
    r
}

/// Letter-for-letter equality of two words.
pub fn words_equal(a: &[u8], b: &[u8]) -> (r: bool)
    ensures
        r == (a@ == b@),
{
    if a.len() != b.len() {
        return false;
    }
    let mut i: usize = 0;
    while i < a.len()
        invariant
            a.len() == b.len(),
            i <= a.len(),
            forall|j: int| 0 <= j < i ==> a@[j] == b@[j],
        decreases a.len() - i,
    {
        if a[i] != b[i] {
            return false;
        }
        i = i + 1;
    }
    assert(a@ =~= b@);
    true
}

/// Whether `needle` occurs in `haystack` starting at `p`.
pub fn occurs_at_exec(haystack: &[u8], needle: &[u8], p: usize) -> (r: bool)
    ensures
        r == occurs_at(needle@, haystack@, p as int),
{
    if needle.len() > haystack.len() || p > haystack.len() - needle.len() {
        return false;
    }
    let mut i: usize = 0;
    while i < needle.len()
        invariant
            p + needle.len() <= haystack.len(),
            i <= needle.len(),
            forall|j: int| 0 <= j < i ==> haystack@[p + j] == needle@[j],
        decreases needle.len() - i,
    {
        if haystack[p + i] != needle[i] {
            assert(haystack@.subrange(p as int, p + needle.len())[i as int] != needle@[i as int]);
            return false;
        }
        i = i + 1;
    }
    assert(haystack@.subrange(p as int, p + needle.len()) =~= needle@);
    true
}

/// First position at which `needle` occurs in `haystack`.
pub fn find_subslice(haystack: &[u8], needle: &[u8]) -> (r: Option<usize>)
    ensures
        match r {
            Some(p) => occurs_at(needle@, haystack@, p as int) && forall|q: int|
                0 <= q < p ==> !#[trigger] occurs_at(needle@, haystack@, q),
            None => forall|q: int| !#[trigger] occurs_at(needle@, haystack@, q),
        },
{
    if needle.len() == 0 {
        assert(haystack@.subrange(0, 0) =~= needle@);
        return Some(0);
    }
    if needle.len() > haystack.len() {
        return None;
    }
    let last = haystack.len() - needle.len();
    let mut p: usize = 0;
    while p <= last
        invariant
            last == haystack.len() - needle.len(),
            needle.len() > 0,
            p <= last + 1,
            forall|q: int| 0 <= q < p ==> !#[trigger] occurs_at(needle@, haystack@, q),
        decreases last + 1 - p,
    {
        if occurs_at_exec(haystack, needle, p) {
            return Some(p);
        }
        p = p + 1;
    }
    None
}

/// `w` with the `n` letters at `p` replaced by `r`.
pub fn splice_exec(w: &[u8], p: usize, n: usize, r: &[u8]) -> (res: Vec<u8>)
    requires
        p + n <= w.len(),
    ensures
        res@ == splice(w@, p as int, n as int, r@),
{
    let mut res: Vec<u8> = Vec::new();
    let mut i: usize = 0;
    while i < p
        invariant
            p + n <= w.len(),
            i <= p,
            res@ == w@.subrange(0, i as int),
        decreases p - i,
    {
        res.push(w[i]);
        i = i + 1;
        assert(res@ =~= w@.subrange(0, i as int));
    }
    let mut j: usize = 0;
    while j < r.len()
        invariant
            j <= r.len(),
            res@ == w@.subrange(0, p as int) + r@.subrange(0, j as int),
        decreases r.len() - j,
    {
        res.push(r[j]);
        j = j + 1;
        assert(res@ =~= w@.subrange(0, p as int) + r@.subrange(0, j as int));
    }
    let mut k: usize = p + n;
    while k < w.len()
        invariant
            p + n <= k <= w.len(),
            res@ == w@.subrange(0, p as int) + r@ + w@.subrange(p + n, k as int),
        decreases w.len() - k,
    {
        res.push(w[k]);
        k = k + 1;
        assert(res@ =~= w@.subrange(0, p as int) + r@ + w@.subrange(p + n, k as int));
    }
    assert(r@.subrange(0, r@.len() as int) =~= r@);
    res
}

} // verus!
