//! What Knuth-Bendix completion leaves behind: critical pairs of the rules
//! that rewrite to one irreducible word (or to a word past the length bound),
//! and the counting argument that makes truncated completion terminate.

use vstd::prelude::*;
use crate::hyperbolic::words::{
    Rules, occurs_at, splice, rewrites_at, one_step, irreducible, reduces_to, convertible, is_path, path_link,
    conv_step, oriented, rank_bounded, word_value, shortlex_lt, lex_lt_at, lemma_reduces_mono, lemma_reduces_refl, lemma_reduces_step,
    lemma_reduces_trans, lemma_reduces_first, lemma_reduces_prepend, lemma_reduces_context, lemma_rewrite_decreases,
};
use crate::hyperbolic::knuth_bendix::{FWD, BACK, LEFT, is_kb_letter, is_kb_word};

verus! {

/// The suffix of length `k` of rule `x`'s left-hand side is the prefix of
/// length `k` of rule `y`'s left-hand side.
pub open spec fn overlaps(rs: Rules, x: int, y: int, k: int) -> bool {
    &&& 0 <= x < rs.len()
    &&& 0 <= y < rs.len()
    &&& 1 <= k <= rs[x].0.len()
    &&& k <= rs[y].0.len()
    &&& rs[x].0.subrange(rs[x].0.len() - k, rs[x].0.len() as int) == rs[y].0.subrange(0, k)
}

/// The overlap word rewritten by rule `x`.
pub open spec fn cp_left(rs: Rules, x: int, y: int, k: int) -> Seq<u8> {
    rs[x].1 + rs[y].0.subrange(k, rs[y].0.len() as int)
}

/// The overlap word rewritten by rule `y`.
pub open spec fn cp_right(rs: Rules, x: int, y: int, k: int) -> Seq<u8> {
    rs[x].0.subrange(0, rs[x].0.len() - k) + rs[y].1
}

/// `u` and `v` rewrite to irreducible words `a` and `b` that are equal, or
/// one of which is longer than `bound`.
pub open spec fn joins_within(rs: Rules, u: Seq<u8>, v: Seq<u8>, bound: nat) -> bool {
    exists|a: Seq<u8>, b: Seq<u8>|
        #![trigger reduces_to(rs, u, a), reduces_to(rs, v, b)]
        reduces_to(rs, u, a) && reduces_to(rs, v, b) && irreducible(rs, a) && irreducible(rs, b) && (a == b
            || a.len() > bound || b.len() > bound)
}

/// Every critical pair of the rules joins within `bound`.
pub open spec fn critical_pairs_resolved(rs: Rules, bound: nat) -> bool {
    forall|x: int, y: int, k: int| #[trigger]
        overlaps(rs, x, y, k) ==> joins_within(rs, cp_left(rs, x, y, k), cp_right(rs, x, y, k), bound)
}

/// `l` occurs in `m`, which occurs in `w`: then `l` occurs in `w`.
pub proof fn lemma_occurs_trans(l: Seq<u8>, m: Seq<u8>, w: Seq<u8>, q: int, p: int)
    requires
        occurs_at(l, m, q),
        occurs_at(m, w, p),
    ensures
        occurs_at(l, w, p + q),
{
    assert(w.subrange(p + q, p + q + l.len()) =~= l) by {
        assert forall|t: int| 0 <= t < l.len() implies w.subrange(p + q, p + q + l.len())[t] == l[t] by {
            assert(w.subrange(p, p + m.len())[q + t] == m[q + t]);
            assert(m.subrange(q, q + l.len())[t] == l[t]);
        }
    }
}

/// Every rule of `sub` stands in `sup`: a word irreducible under `sup` is
/// irreducible under `sub`.
pub proof fn lemma_irreducible_sub(sub: Rules, sup: Rules, w: Seq<u8>)
    requires
        forall|k: int| 0 <= k < sub.len() ==> sup.contains(#[trigger] sub[k]),
        irreducible(sup, w),
    ensures
        irreducible(sub, w),
{
    assert forall|k: int, p: int| 0 <= k < sub.len() implies !#[trigger] occurs_at(sub[k].0, w, p) by {
        assert(sup.contains(sub[k]));
        let m = choose|m: int| 0 <= m < sup.len() && sup[m] == sub[k];
        assert(!occurs_at(sup[m].0, w, p));
    }
}

/// Each left-hand side of `t` holds one of `u`: a word irreducible under `u`
/// is irreducible under `t`.
pub proof fn lemma_irreducible_covered(t: Rules, u: Rules, w: Seq<u8>)
    requires
        forall|i: int| 0 <= i < t.len() ==> !irreducible(u, #[trigger] t[i].0),
        irreducible(u, w),
    ensures
        irreducible(t, w),
{
    assert forall|i: int, p: int| 0 <= i < t.len() implies !#[trigger] occurs_at(t[i].0, w, p) by {
        if occurs_at(t[i].0, w, p) {
            assert(!irreducible(u, t[i].0));
            let (k, q) = choose|k: int, q: int| 0 <= k < u.len() && #[trigger] occurs_at(u[k].0, t[i].0, q);
            lemma_occurs_trans(u[k].0, t[i].0, w, q, p);
            assert(!occurs_at(u[k].0, w, p + q));
        }
    }
}

/// No rule of `t` with a shorter left-hand side rewrites rule `j`'s.
pub open spec fn shorter_free(t: Rules, j: int) -> bool {
    forall|m: int, p: int| 0 <= m < t.len() && t[m].0.len() < t[j].0.len() ==> !#[trigger] occurs_at(t[m].0, t[j].0, p)
}

/// When every rule of `t` that no shorter rule rewrites keeps its left-hand
/// side in `u`, `u` rewrites every left-hand side of `t`.
pub proof fn lemma_lhs_covered(t: Rules, u: Rules, i: int)
    requires
        0 <= i < t.len(),
        forall|j: int| 0 <= j < t.len() && #[trigger] shorter_free(t, j) ==> exists|k: int| 0 <= k < u.len() && #[trigger] u[k].0 == t[j].0,
    ensures
        !irreducible(u, t[i].0),
    decreases t[i].0.len(),
{
    if shorter_free(t, i) {
        let k = choose|k: int| 0 <= k < u.len() && #[trigger] u[k].0 == t[i].0;
        assert(t[i].0.subrange(0, t[i].0.len() as int) =~= t[i].0);
        assert(occurs_at(u[k].0, t[i].0, 0));
    } else {
        let (m, p) = choose|m: int, p: int| 0 <= m < t.len() && t[m].0.len() < t[i].0.len() && #[trigger] occurs_at(t[m].0, t[i].0, p);
        lemma_lhs_covered(t, u, m);
        let (k, q) = choose|k: int, q: int| 0 <= k < u.len() && #[trigger] occurs_at(u[k].0, t[m].0, q);
        lemma_occurs_trans(u[k].0, t[m].0, t[i].0, q, p);
    }
}

/// Critical pairs stay resolved when the rule list is reordered.
pub proof fn lemma_resolved_reorder(s: Rules, f: Rules, bound: nat)
    requires
        critical_pairs_resolved(s, bound),
        forall|k: int| 0 <= k < s.len() ==> f.contains(#[trigger] s[k]),
        forall|k: int| 0 <= k < f.len() ==> s.contains(#[trigger] f[k]),
    ensures
        critical_pairs_resolved(f, bound),
{
    assert forall|x: int, y: int, k: int| #[trigger] overlaps(f, x, y, k) implies joins_within(
        f,
        cp_left(f, x, y, k),
        cp_right(f, x, y, k),
        bound,
    ) by {
        assert(s.contains(f[x]));
        assert(s.contains(f[y]));
        let x2 = choose|x2: int| 0 <= x2 < s.len() && s[x2] == f[x];
        let y2 = choose|y2: int| 0 <= y2 < s.len() && s[y2] == f[y];
        assert(overlaps(s, x2, y2, k));
        let u = cp_left(s, x2, y2, k);
        let v = cp_right(s, x2, y2, k);
        assert(u == cp_left(f, x, y, k));
        assert(v == cp_right(f, x, y, k));
        let (a, b) = choose|a: Seq<u8>, b: Seq<u8>|
            #![trigger reduces_to(s, u, a), reduces_to(s, v, b)]
            reduces_to(s, u, a) && reduces_to(s, v, b) && irreducible(s, a) && irreducible(s, b) && (a == b
                || a.len() > bound || b.len() > bound);
        lemma_reduces_mono(s, f, u, a);
        lemma_reduces_mono(s, f, v, b);
        lemma_irreducible_sub(f, s, a);
        lemma_irreducible_sub(f, s, b);
    }
}

// ---------------------------------------------------------------------------
// Counting irreducible words: the measure that bounds truncated completion.
// ---------------------------------------------------------------------------

spec fn kb_letters() -> Seq<u8> {
    seq![FWD, BACK, LEFT]
}

/// All words over {A, a, B} of length `k`.
spec fn kb_words_of_len(k: nat) -> Seq<Seq<u8>>
    decreases k,
{
    if k == 0 {
        seq![Seq::<u8>::empty()]
    } else {
        let prev = kb_words_of_len((k - 1) as nat);
        Seq::new(3 * prev.len(), |i: int| prev[i / 3].push(kb_letters()[i % 3]))
    }
}

/// All words over {A, a, B} of length at most `k`.
spec fn kb_words_upto(k: nat) -> Seq<Seq<u8>>
    decreases k,
{
    if k == 0 {
        kb_words_of_len(0)
    } else {
        kb_words_upto((k - 1) as nat) + kb_words_of_len(k)
    }
}

/// How many words of `ws` no rule of `rs` rewrites.
spec fn count_irreducible(rs: Rules, ws: Seq<Seq<u8>>) -> nat
    decreases ws.len(),
{
    if ws.len() == 0 {
        0
    } else {
        count_irreducible(rs, ws.drop_last()) + if irreducible(rs, ws.last()) {
            1nat
        } else {
            0nat
        }
    }
}

/// How many words over {A, a, B} of length at most `bound` no rule rewrites.
pub closed spec fn irreducible_words_within(rs: Rules, bound: nat) -> nat {
    count_irreducible(rs, kb_words_upto(bound))
}

proof fn lemma_in_words_of_len(w: Seq<u8>)
    requires
        is_kb_word(w),
    ensures
        exists|i: int| 0 <= i < kb_words_of_len(w.len()).len() && #[trigger] kb_words_of_len(w.len())[i] == w,
    decreases w.len(),
{
    if w.len() == 0 {
        assert(kb_words_of_len(0)[0] =~= w);
    } else {
        let k = w.len();
        let v = w.drop_last();
        assert(is_kb_word(v)) by {
            assert forall|t: int| 0 <= t < v.len() implies is_kb_letter(#[trigger] v[t]) by {
                assert(v[t] == w[t]);
            }
        }
        lemma_in_words_of_len(v);
        let prev = kb_words_of_len((k - 1) as nat);
        assert(v.len() == k - 1);
        let i0 = choose|i: int| 0 <= i < prev.len() && #[trigger] prev[i] == v;
        let c: int = if w.last() == FWD {
            0
        } else if w.last() == BACK {
            1
        } else {
            2
        };
        assert(is_kb_letter(w[w.len() - 1]));
        assert(kb_letters()[c] == w.last());
        let idx = 3 * i0 + c;
        let pl = prev.len() as int;
        assert(0 <= idx < 3 * pl && idx / 3 == i0 && idx % 3 == c) by (nonlinear_arith)
            requires
                idx == 3 * i0 + c,
                0 <= i0 < pl,
                0 <= c < 3,
        ;
        let all = kb_words_of_len(k);
        assert(all.len() == 3 * pl);
        assert(all[idx] == prev[i0].push(kb_letters()[c]));
        assert(all[idx] =~= w);
    }
}

proof fn lemma_in_words_upto(w: Seq<u8>, bound: nat)
    requires
        is_kb_word(w),
        w.len() <= bound,
    ensures
        exists|i: int| 0 <= i < kb_words_upto(bound).len() && #[trigger] kb_words_upto(bound)[i] == w,
    decreases bound,
{
    if w.len() == bound {
        lemma_in_words_of_len(w);
        let i = choose|i: int| 0 <= i < kb_words_of_len(w.len()).len() && #[trigger] kb_words_of_len(w.len())[i] == w;
        if bound == 0 {
            assert(kb_words_upto(bound)[i] == w);
        } else {
            let pre = kb_words_upto((bound - 1) as nat);
            assert(kb_words_upto(bound)[pre.len() + i] == w);
        }
    } else {
        lemma_in_words_upto(w, (bound - 1) as nat);
        let pre = kb_words_upto((bound - 1) as nat);
        let i = choose|i: int| 0 <= i < pre.len() && #[trigger] pre[i] == w;
        assert(kb_words_upto(bound)[i] == w);
    }
}

proof fn lemma_count_le(r1: Rules, r2: Rules, ws: Seq<Seq<u8>>)
    requires
        forall|i: int| 0 <= i < ws.len() && irreducible(r2, #[trigger] ws[i]) ==> irreducible(r1, ws[i]),
    ensures
        count_irreducible(r2, ws) <= count_irreducible(r1, ws),
    decreases ws.len(),
{
    if ws.len() > 0 {
        let d = ws.drop_last();
        assert forall|i: int| 0 <= i < d.len() && irreducible(r2, #[trigger] d[i]) implies irreducible(r1, d[i]) by {
            assert(d[i] == ws[i]);
        }
        lemma_count_le(r1, r2, d);
        assert(irreducible(r2, ws[ws.len() - 1]) ==> irreducible(r1, ws[ws.len() - 1]));
    }
}

proof fn lemma_count_lt(r1: Rules, r2: Rules, ws: Seq<Seq<u8>>, idx: int)
    requires
        forall|i: int| 0 <= i < ws.len() && irreducible(r2, #[trigger] ws[i]) ==> irreducible(r1, ws[i]),
        0 <= idx < ws.len(),
        irreducible(r1, ws[idx]),
        !irreducible(r2, ws[idx]),
    ensures
        count_irreducible(r2, ws) < count_irreducible(r1, ws),
    decreases ws.len(),
{
    let d = ws.drop_last();
    assert forall|i: int| 0 <= i < d.len() && irreducible(r2, #[trigger] d[i]) implies irreducible(r1, d[i]) by {
        assert(d[i] == ws[i]);
    }
    assert(irreducible(r2, ws[ws.len() - 1]) ==> irreducible(r1, ws[ws.len() - 1]));
    if idx == ws.len() - 1 {
        lemma_count_le(r1, r2, d);
    } else {
        assert(d[idx] == ws[idx]);
        lemma_count_lt(r1, r2, d, idx);
    }
}

/// Passing from rules `r1` to `r2` leaves no word of `r1` that was rewritten
/// unrewritten, and rewrites `w`, a word over {A, a, B} of length at most
/// `bound` that `r1` did not: fewer such words stay irreducible.
pub proof fn lemma_fewer_irreducible(r1: Rules, r2: Rules, w: Seq<u8>, bound: nat)
    requires
        forall|v: Seq<u8>| #[trigger] irreducible(r2, v) ==> irreducible(r1, v),
        is_kb_word(w),
        w.len() <= bound,
        irreducible(r1, w),
        !irreducible(r2, w),
    ensures
        irreducible_words_within(r2, bound) < irreducible_words_within(r1, bound),
{
    let ws = kb_words_upto(bound);
    lemma_in_words_upto(w, bound);
    let idx = choose|i: int| 0 <= i < ws.len() && #[trigger] ws[i] == w;
    assert forall|i: int| 0 <= i < ws.len() && irreducible(r2, #[trigger] ws[i]) implies irreducible(r1, ws[i]) by {}
    lemma_count_lt(r1, r2, ws, idx);
}

// ---------------------------------------------------------------------------
// Joinable overlaps give every word one normal form.
// ---------------------------------------------------------------------------

/// Rule `y`'s left-hand side occurs inside rule `x`'s at position `q`.
pub open spec fn inclusion_at(rs: Rules, x: int, y: int, q: int) -> bool {
    &&& 0 <= x < rs.len()
    &&& 0 <= y < rs.len()
    &&& occurs_at(rs[y].0, rs[x].0, q)
}

/// Rule `x`'s left-hand side rewritten by rule `y` at position `q`.
pub open spec fn incl_right(rs: Rules, x: int, y: int, q: int) -> Seq<u8> {
    splice(rs[x].0, q, rs[y].0.len() as int, rs[y].1)
}

/// `u` and `v` rewrite forward to one word.
pub open spec fn joins(rs: Rules, u: Seq<u8>, v: Seq<u8>) -> bool {
    exists|c: Seq<u8>| #[trigger] reduces_to(rs, u, c) && reduces_to(rs, v, c)
}

/// Every overlap of two left-hand sides, and every left-hand side inside
/// another, rewrites both ways to one word.
pub open spec fn locally_joinable(rs: Rules) -> bool {
    &&& forall|x: int, y: int, k: int| #[trigger] overlaps(rs, x, y, k) ==> joins(rs, cp_left(rs, x, y, k), cp_right(rs, x, y, k))
    &&& forall|x: int, y: int, q: int| #[trigger] inclusion_at(rs, x, y, q) ==> joins(rs, rs[x].1, incl_right(rs, x, y, q))
}

/// `a` is a normal form of `u`: reached from it and irreducible.
pub open spec fn normal_form_of(rs: Rules, u: Seq<u8>, a: Seq<u8>) -> bool {
    reduces_to(rs, u, a) && irreducible(rs, a)
}

proof fn lemma_join_in_context(rs: Rules, u: Seq<u8>, v: Seq<u8>, pre: Seq<u8>, post: Seq<u8>)
    requires
        joins(rs, u, v),
    ensures
        joins(rs, pre + u + post, pre + v + post),
{
    let c = choose|c: Seq<u8>| #[trigger] reduces_to(rs, u, c) && reduces_to(rs, v, c);
    lemma_reduces_context(rs, u, c, pre, post);
    lemma_reduces_context(rs, v, c, pre, post);
    assert(reduces_to(rs, pre + u + post, pre + c + post));
}

/// Two rewrites of `w`, rule `i` at `p` and rule `j` at `q`, with `p <= q`
/// and, at one position, the longer rule first, join.
proof fn lemma_local_join_ordered(rs: Rules, w: Seq<u8>, i: int, p: int, x: Seq<u8>, j: int, q: int, y: Seq<u8>)
    requires
        locally_joinable(rs),
        rewrites_at(rs, i, w, x, p),
        rewrites_at(rs, j, w, y, q),
        p <= q,
        p == q ==> rs[j].0.len() <= rs[i].0.len(),
    ensures
        joins(rs, x, y),
{
    let li = rs[i].0;
    let ri = rs[i].1;
    let lj = rs[j].0;
    let rj = rs[j].1;
    let nli = li.len() as int;
    let nlj = lj.len() as int;
    assert(w.subrange(p, p + nli) == li);
    assert(w.subrange(q, q + nlj) == lj);
    if q + nlj <= p + nli {
        // Rule j's left-hand side lies inside rule i's.
        let d = q - p;
        assert(li.subrange(d, d + nlj) =~= lj) by {
            assert forall|t: int| 0 <= t < nlj implies li.subrange(d, d + nlj)[t] == lj[t] by {
                assert(li[d + t] == w.subrange(p, p + nli)[d + t]);
                assert(lj[t] == w.subrange(q, q + nlj)[t]);
            }
        }
        assert(inclusion_at(rs, i, j, d));
        let m = incl_right(rs, i, j, d);
        let pre = w.subrange(0, p);
        let post = w.subrange(p + nli, w.len() as int);
        assert(x =~= pre + ri + post);
        assert(y =~= pre + m + post) by {
            assert forall|t: int| 0 <= t < y.len() implies y[t] == (pre + m + post)[t] by {
                if t < q {
                } else if t < q + rj.len() {
                } else {
                    assert(y[t] == w[t - rj.len() + nlj]);
                }
            }
        }
        lemma_join_in_context(rs, ri, m, pre, post);
    } else if q >= p + nli {
        // The two left-hand sides do not meet.
        let z = w.subrange(0, p) + ri + w.subrange(p + nli, q) + rj + w.subrange(q + nlj, w.len() as int);
        let q2 = q - nli + ri.len();
        assert(x.subrange(q2, q2 + nlj) =~= lj) by {
            assert forall|t: int| 0 <= t < nlj implies x.subrange(q2, q2 + nlj)[t] == lj[t] by {
                assert(x[q2 + t] == w[q + t]);
                assert(lj[t] == w.subrange(q, q + nlj)[t]);
            }
        }
        assert(splice(x, q2, nlj, rj) =~= z);
        assert(rewrites_at(rs, j, x, z, q2));
        assert(y.subrange(p, p + nli) =~= li) by {
            assert forall|t: int| 0 <= t < nli implies y.subrange(p, p + nli)[t] == li[t] by {
                assert(y[p + t] == w[p + t]);
                assert(li[t] == w.subrange(p, p + nli)[t]);
            }
        }
        assert(splice(y, p, nli, ri) =~= z);
        assert(rewrites_at(rs, i, y, z, p));
        lemma_reduces_refl(rs, x);
        lemma_reduces_step(rs, x, x, z);
        lemma_reduces_refl(rs, y);
        lemma_reduces_step(rs, y, y, z);
    } else {
        // The end of rule i's left-hand side overlaps the start of rule j's.
        let k = p + nli - q;
        assert(li.subrange(nli - k, nli) =~= lj.subrange(0, k)) by {
            assert forall|t: int| 0 <= t < k implies li.subrange(nli - k, nli)[t] == lj.subrange(0, k)[t] by {
                assert(li[nli - k + t] == w.subrange(p, p + nli)[nli - k + t]);
                assert(lj[t] == w.subrange(q, q + nlj)[t]);
            }
        }
        assert(overlaps(rs, i, j, k));
        let pre = w.subrange(0, p);
        let post = w.subrange(q + nlj, w.len() as int);
        assert(x =~= pre + cp_left(rs, i, j, k) + post) by {
            assert forall|t: int| 0 <= t < x.len() implies x[t] == (pre + cp_left(rs, i, j, k) + post)[t] by {
                if t >= p + ri.len() && t < p + ri.len() + nlj - k {
                    assert(x[t] == w[t - ri.len() + nli]);
                    assert(lj[t - p - ri.len() + k] == w.subrange(q, q + nlj)[t - p - ri.len() + k]);
                }
            }
        }
        assert(y =~= pre + cp_right(rs, i, j, k) + post) by {
            assert forall|t: int| 0 <= t < y.len() implies y[t] == (pre + cp_right(rs, i, j, k) + post)[t] by {
                if p <= t < q {
                    assert(li[t - p] == w.subrange(p, p + nli)[t - p]);
                }
            }
        }
        lemma_join_in_context(rs, cp_left(rs, i, j, k), cp_right(rs, i, j, k), pre, post);
    }
}

/// Two one-step rewrites of one word join.
pub proof fn lemma_local_join(rs: Rules, w: Seq<u8>, x: Seq<u8>, y: Seq<u8>)
    requires
        locally_joinable(rs),
        one_step(rs, w, x),
        one_step(rs, w, y),
    ensures
        joins(rs, x, y),
{
    let (i, p) = choose|i: int, p: int| rewrites_at(rs, i, w, x, p);
    let (j, q) = choose|j: int, q: int| rewrites_at(rs, j, w, y, q);
    if p < q || (p == q && rs[j].0.len() <= rs[i].0.len()) {
        lemma_local_join_ordered(rs, w, i, p, x, j, q, y);
    } else {
        lemma_local_join_ordered(rs, w, j, q, y, i, p, x);
        let c = choose|c: Seq<u8>| #[trigger] reduces_to(rs, y, c) && reduces_to(rs, x, c);
        assert(reduces_to(rs, x, c) && reduces_to(rs, y, c));
    }
}

/// An irreducible word rewrites to nothing but itself.
pub proof fn lemma_irreducible_stays(rs: Rules, u: Seq<u8>, v: Seq<u8>)
    requires
        irreducible(rs, u),
        reduces_to(rs, u, v),
    ensures
        v == u,
{
    if v != u {
        let x = lemma_reduces_first(rs, u, v);
        let (k, p) = choose|k: int, p: int| rewrites_at(rs, k, u, x, p);
        assert(!occurs_at(rs[k].0, u, p));
    }
}

/// Under oriented rules every word has a normal form.
pub proof fn lemma_normal_form_exists(rank: spec_fn(u8) -> nat, rs: Rules, w: Seq<u8>) -> (c: Seq<u8>)
    requires
        rank_bounded(rank),
        oriented(rank, rs),
    ensures
        normal_form_of(rs, w, c),
    decreases w.len(), word_value(rank, w),
{
    if irreducible(rs, w) {
        lemma_reduces_refl(rs, w);
        w
    } else {
        let (k, p) = choose|k: int, p: int| 0 <= k < rs.len() && #[trigger] occurs_at(rs[k].0, w, p);
        let v = splice(w, p, rs[k].0.len() as int, rs[k].1);
        assert(rewrites_at(rs, k, w, v, p));
        lemma_rewrite_decreases(rank, rs, k, w, v, p);
        let c = lemma_normal_form_exists(rank, rs, v);
        lemma_reduces_prepend(rs, w, v, c);
        c
    }
}

/// Newman's lemma: oriented rules whose overlaps join give each word one
/// normal form.
pub proof fn lemma_unique_normal_form(rank: spec_fn(u8) -> nat, rs: Rules, w: Seq<u8>, a: Seq<u8>, b: Seq<u8>)
    requires
        rank_bounded(rank),
        oriented(rank, rs),
        locally_joinable(rs),
        normal_form_of(rs, w, a),
        normal_form_of(rs, w, b),
    ensures
        a == b,
    decreases w.len(), word_value(rank, w),
{
    if w == a {
        lemma_irreducible_stays(rs, w, b);
    } else if w == b {
        lemma_irreducible_stays(rs, w, a);
    } else {
        let x = lemma_reduces_first(rs, w, a);
        let y = lemma_reduces_first(rs, w, b);
        lemma_local_join(rs, w, x, y);
        let z = choose|c: Seq<u8>| #[trigger] reduces_to(rs, x, c) && reduces_to(rs, y, c);
        let c = lemma_normal_form_exists(rank, rs, z);
        lemma_reduces_trans(rs, x, z, c);
        lemma_reduces_trans(rs, y, z, c);
        let (k1, p1) = choose|k: int, p: int| rewrites_at(rs, k, w, x, p);
        lemma_rewrite_decreases(rank, rs, k1, w, x, p1);
        let (k2, p2) = choose|k: int, p: int| rewrites_at(rs, k, w, y, p);
        lemma_rewrite_decreases(rank, rs, k2, w, y, p2);
        lemma_unique_normal_form(rank, rs, x, a, c);
        lemma_unique_normal_form(rank, rs, y, b, c);
    }
}

proof fn lemma_path_normal_form(rank: spec_fn(u8) -> nat, rs: Rules, path: Seq<Seq<u8>>, i: int, a: Seq<u8>)
    requires
        rank_bounded(rank),
        oriented(rank, rs),
        locally_joinable(rs),
        0 <= i < path.len(),
        forall|t: int| 0 <= t < path.len() - 1 ==> #[trigger] path_link(rs, path, t),
        normal_form_of(rs, path[0], a),
    ensures
        normal_form_of(rs, path[i], a),
    decreases i,
{
    if i > 0 {
        lemma_path_normal_form(rank, rs, path, i - 1, a);
        assert(path_link(rs, path, i - 1));
        if one_step(rs, path[i - 1], path[i]) {
            let c = lemma_normal_form_exists(rank, rs, path[i]);
            lemma_reduces_prepend(rs, path[i - 1], path[i], c);
            lemma_unique_normal_form(rank, rs, path[i - 1], a, c);
        } else {
            lemma_reduces_prepend(rs, path[i], path[i - 1], a);
        }
    }
}

/// Church-Rosser: under oriented rules whose overlaps join, words that the
/// rules make equal have the same normal form.
pub proof fn lemma_convertible_same_normal_form(
    rank: spec_fn(u8) -> nat,
    rs: Rules,
    u: Seq<u8>,
    v: Seq<u8>,
    a: Seq<u8>,
    b: Seq<u8>,
)
    requires
        rank_bounded(rank),
        oriented(rank, rs),
        locally_joinable(rs),
        convertible(rs, u, v),
        normal_form_of(rs, u, a),
        normal_form_of(rs, v, b),
    ensures
        a == b,
{
    let path = choose|path: Seq<Seq<u8>>| is_path(rs, path, u, v);
    lemma_path_normal_form(rank, rs, path, path.len() - 1, a);
    lemma_unique_normal_form(rank, rs, v, a, b);
}

/// Words that rewrite to one word have the same normal form.
pub proof fn lemma_joins_same_normal_form(
    rank: spec_fn(u8) -> nat,
    rs: Rules,
    u: Seq<u8>,
    v: Seq<u8>,
    a: Seq<u8>,
    b: Seq<u8>,
)
    requires
        rank_bounded(rank),
        oriented(rank, rs),
        locally_joinable(rs),
        joins(rs, u, v),
        normal_form_of(rs, u, a),
        normal_form_of(rs, v, b),
    ensures
        a == b,
{
    let c = choose|c: Seq<u8>| #[trigger] reduces_to(rs, u, c) && reduces_to(rs, v, c);
    let d = lemma_normal_form_exists(rank, rs, c);
    lemma_reduces_trans(rs, u, c, d);
    lemma_reduces_trans(rs, v, c, d);
    lemma_unique_normal_form(rank, rs, u, a, d);
    lemma_unique_normal_form(rank, rs, v, b, d);
}

/// No oriented rule rewrites the empty word.
pub proof fn lemma_empty_irreducible(rank: spec_fn(u8) -> nat, rs: Rules)
    requires
        oriented(rank, rs),
    ensures
        irreducible(rs, Seq::<u8>::empty()),
{
    assert forall|k: int, p: int| 0 <= k < rs.len() implies !#[trigger] occurs_at(rs[k].0, Seq::<u8>::empty(), p) by {
        assert(shortlex_lt(rank, rs[k].1, rs[k].0));
        if rs[k].1.len() == rs[k].0.len() {
            let i = choose|i: int| lex_lt_at(rank, rs[k].1, rs[k].0, i);
        }
    }
}

/// Every left-hand side of `sub` is one of `sup`: a word irreducible under
/// `sup` is irreducible under `sub`.
pub proof fn lemma_irreducible_lhs_sub(sub: Rules, sup: Rules, w: Seq<u8>)
    requires
        forall|k: int| 0 <= k < sub.len() ==> exists|m: int| 0 <= m < sup.len() && sup[m].0 == #[trigger] sub[k].0,
        irreducible(sup, w),
    ensures
        irreducible(sub, w),
{
    assert forall|k: int, p: int| 0 <= k < sub.len() implies !#[trigger] occurs_at(sub[k].0, w, p) by {
        let m = choose|m: int| 0 <= m < sup.len() && sup[m].0 == sub[k].0;
        assert(!occurs_at(sup[m].0, w, p));
    }
}

} // verus!
