//! Algebraic cell identity for {4,q} hyperbolic tilings.
//!
//! A `CellId` is the canonical (shortlex-minimum) reduced word representing
//! a cell, chosen among the four orientations of that cell. An
//! `OrientedCell` pairs a `CellId` with an orientation (0-3) recording how
//! many left turns lead from the given word to the canonical one.

use vstd::prelude::*;
use crate::hyperbolic::words::{
    Rules, convertible, irreducible, shortlex_lt, lemma_conv_context, lemma_conv_trans, lemma_conv_sym, copy_word,
    lemma_reduces_refl,
};
use crate::hyperbolic::completion::{locally_joinable, lemma_convertible_same_normal_form};
use crate::hyperbolic::rewrite::{
    A, B, Word, RewriteRule, rule_list_view, rules_terminating, is_turtle_word, turtle_rank_fn,
    reduce, shortlex_less, word_to_string, lemma_shortlex_trans, lemma_shortlex_irrefl, letter_char,
    lemma_turtle_total, lemma_turtle_rank_bounded,
};

verus! {

/// Canonical cell identity: the shortlex-minimum reduced word among the
/// four orientations of a cell.
#[derive(Clone, Debug, PartialEq, Eq, PartialOrd, Ord, Hash)]
pub struct CellId {
    word: Word,
}

impl View for CellId {
    type V = Seq<u8>;

    closed spec fn view(&self) -> Seq<u8> {
        self.word@
    }
}

/// Number of letters equal to `c` in `w`.
pub open spec fn count_letter(w: Seq<u8>, c: u8) -> nat
    decreases w.len(),
{
    if w.len() == 0 {
        0
    } else {
        count_letter(w.drop_last(), c) + if w.last() == c {
            1nat
        } else {
            0nat
        }
    }
}

impl CellId {
    /// The origin cell (empty word).
    pub fn origin() -> (r: Self)
        ensures
            r@ == Seq::<u8>::empty(),
    {
        CellId { word: Vec::new() }
    }

    /// Create a CellId from an already-canonical word. No validation.
    pub fn from_canonical(word: Word) -> (r: Self)
        ensures
            r@ == word@,
    {
        CellId { word }
    }

    /// The canonical word.
    pub fn word(&self) -> (r: &[u8])
        ensures
            r@ == self@,
    {
        self.word.as_slice()
    }

    /// Word length (a rough measure of distance from the origin).
    pub fn len(&self) -> (r: usize)
        ensures
            r == self@.len(),
    {
        self.word.len()
    }

    pub fn is_empty(&self) -> (r: bool)
        ensures
            r == (self@.len() == 0),
    {
        self.word.len() == 0
    }

    /// Number of hops (A letters) in the word, ignoring turns.
    pub fn hop_count(&self) -> (r: usize)
        ensures
            r == count_letter(self@, A),
    {
        let mut count: usize = 0;
        let mut i: usize = 0;
        while i < self.word.len()
            invariant
                i <= self.word.len(),
                count == count_letter(self.word@.subrange(0, i as int), A),
                count <= i,
            decreases self.word.len() - i,
        {
            let ghost pre = self.word@.subrange(0, i as int);
            assert(self.word@.subrange(0, i + 1).drop_last() =~= pre);
            if self.word[i] == A {
                count = count + 1;
            }
            i = i + 1;
        }
        assert(self.word@.subrange(0, self.word@.len() as int) =~= self.word@);
        count
    }

    /// The word rendered with `word_to_string` (`e` for the origin).
    pub fn to_display_string(&self) -> (r: String)
        ensures
            self@.len() == 0 ==> r@ == "e"@,
            self@.len() > 0 ==> r@ == self@.map_values(|c: u8| letter_char(c)),
    {
        word_to_string(&self.word)
    }
}

/// A cell with a specific orientation (which edge the turtle faces).
#[derive(Clone, Debug)]
pub struct OrientedCell {
    pub id: CellId,
    /// 0-3: how many B (left turns) from the given word's orientation lead
    /// to the canonical word.
    pub orientation: u8,
}

/// `B` repeated `r` times.
pub open spec fn b_pow(r: nat) -> Seq<u8> {
    Seq::new(r, |i: int| B)
}

/// `c` is a reduced form of `word` turned left `r` times.
pub open spec fn is_rot_form(rules: Rules, word: Seq<u8>, r: nat, c: Seq<u8>) -> bool {
    &&& irreducible(rules, c)
    &&& convertible(rules, word + b_pow(r), c)
}

/// Some reduced form of `word` turned left `r` times is not shortlex-smaller than `id`.
pub open spec fn rot_not_smaller(rules: Rules, word: Seq<u8>, r: nat, id: Seq<u8>) -> bool {
    exists|c: Seq<u8>| #[trigger] is_rot_form(rules, word, r, c) && !shortlex_lt(turtle_rank_fn(), c, id)
}

/// Some reduced form of `word` turned left `r` times is shortlex-greater than `id`.
pub open spec fn rot_greater(rules: Rules, word: Seq<u8>, r: nat, id: Seq<u8>) -> bool {
    exists|c: Seq<u8>| #[trigger] is_rot_form(rules, word, r, c) && shortlex_lt(turtle_rank_fn(), id, c)
}

/// `id` with orientation `rot` is the canonical cell of `word`: a reduced
/// form of `word` turned left `rot` times, no smaller than the reduced forms
/// found for the other three orientations, and smaller than those found for
/// fewer turns (on ties the fewest turns win).
pub open spec fn canonical_for(rules: Rules, word: Seq<u8>, id: Seq<u8>, rot: nat) -> bool {
    &&& rot < 4
    &&& is_rot_form(rules, word, rot, id)
    &&& is_turtle_word(id)
    &&& rot_not_smaller(rules, word, 0, id)
    &&& rot_not_smaller(rules, word, 1, id)
    &&& rot_not_smaller(rules, word, 2, id)
    &&& rot_not_smaller(rules, word, 3, id)
    &&& forall|q: nat| q < rot ==> #[trigger] rot_greater(rules, word, q, id)
}

/// With rules that join every overlap, each rotation of a word has one
/// reduced form.
proof fn lemma_rot_form_unique(rules: Seq<RewriteRule>, word: Seq<u8>, r: nat, c1: Seq<u8>, c2: Seq<u8>)
    requires
        rules_terminating(rules),
        locally_joinable(rule_list_view(rules)),
        is_rot_form(rule_list_view(rules), word, r, c1),
        is_rot_form(rule_list_view(rules), word, r, c2),
    ensures
        c1 == c2,
{
    let rv = rule_list_view(rules);
    lemma_turtle_rank_bounded();
    lemma_conv_sym(rv, word + b_pow(r), c1);
    lemma_conv_trans(rv, c1, word + b_pow(r), c2);
    lemma_reduces_refl(rv, c1);
    lemma_reduces_refl(rv, c2);
    lemma_convertible_same_normal_form(turtle_rank_fn(), rv, c1, c2, c1, c2);
}

/// With rules that join every overlap, a word has one canonical cell: two
/// ids and orientations canonical for it are the same. So `canonicalize`
/// gives the one canonical cell of a word, and `neighbor` gives that of the
/// word crossing the edge.
pub proof fn lemma_canonical_unique(
    rules: Seq<RewriteRule>,
    word: Seq<u8>,
    id1: Seq<u8>,
    rot1: nat,
    id2: Seq<u8>,
    rot2: nat,
)
    requires
        rules_terminating(rules),
        locally_joinable(rule_list_view(rules)),
        canonical_for(rule_list_view(rules), word, id1, rot1),
        canonical_for(rule_list_view(rules), word, id2, rot2),
    ensures
        id1 == id2,
        rot1 == rot2,
{
    let rv = rule_list_view(rules);
    // id2 is the form of rotation rot2, which is no smaller than id1.
    assert(rot_not_smaller(rv, word, rot2, id1)) by {
        assert(rot2 == 0 || rot2 == 1 || rot2 == 2 || rot2 == 3);
    }
    let c2 = choose|c: Seq<u8>| #[trigger] is_rot_form(rv, word, rot2, c) && !shortlex_lt(turtle_rank_fn(), c, id1);
    lemma_rot_form_unique(rules, word, rot2, c2, id2);
    assert(rot_not_smaller(rv, word, rot1, id2)) by {
        assert(rot1 == 0 || rot1 == 1 || rot1 == 2 || rot1 == 3);
    }
    let c1 = choose|c: Seq<u8>| #[trigger] is_rot_form(rv, word, rot1, c) && !shortlex_lt(turtle_rank_fn(), c, id2);
    lemma_rot_form_unique(rules, word, rot1, c1, id1);
    if id1 != id2 {
        lemma_turtle_total(id1, id2);
    }
    lemma_shortlex_irrefl(id1);
    if rot1 < rot2 {
        assert(rot_greater(rv, word, rot1, id2));
        let c = choose|c: Seq<u8>| #[trigger] is_rot_form(rv, word, rot1, c) && shortlex_lt(turtle_rank_fn(), id2, c);
        lemma_rot_form_unique(rules, word, rot1, c, id1);
    } else if rot2 < rot1 {
        assert(rot_greater(rv, word, rot2, id1));
        let c = choose|c: Seq<u8>| #[trigger] is_rot_form(rv, word, rot2, c) && shortlex_lt(turtle_rank_fn(), id1, c);
        lemma_rot_form_unique(rules, word, rot2, c, id2);
    }
}

/// The rules rewrite turtle words to turtle words.
pub open spec fn rules_turtle(rules: Seq<RewriteRule>) -> bool {
    forall|k: int| 0 <= k < rules.len() ==> is_turtle_word(#[trigger] rules[k].rhs@)
}

proof fn lemma_keep_smaller(rules: Rules, word: Seq<u8>, r: nat, best: Seq<u8>, c: Seq<u8>)
    requires
        rot_not_smaller(rules, word, r, best),
        shortlex_lt(turtle_rank_fn(), c, best),
    ensures
        rot_not_smaller(rules, word, r, c),
{
    let w = choose|w: Seq<u8>| #[trigger] is_rot_form(rules, word, r, w) && !shortlex_lt(turtle_rank_fn(), w, best);
    if shortlex_lt(turtle_rank_fn(), w, c) {
        lemma_shortlex_trans(w, c, best);
    }
    assert(is_rot_form(rules, word, r, w) && !shortlex_lt(turtle_rank_fn(), w, c));
}

proof fn lemma_self_not_smaller(rules: Rules, word: Seq<u8>, r: nat, c: Seq<u8>)
    requires
        is_rot_form(rules, word, r, c),
    ensures
        rot_not_smaller(rules, word, r, c),
{
    lemma_shortlex_irrefl(c);
    assert(is_rot_form(rules, word, r, c) && !shortlex_lt(turtle_rank_fn(), c, c));
}

proof fn lemma_rotated_form(rules: Rules, word: Seq<u8>, base: Seq<u8>, r: nat, c: Seq<u8>)
    requires
        convertible(rules, word, base),
        convertible(rules, base + b_pow(r), c),
        irreducible(rules, c),
    ensures
        is_rot_form(rules, word, r, c),
{
    lemma_conv_context(rules, word, base, Seq::<u8>::empty(), b_pow(r));
    assert(Seq::<u8>::empty() + word + b_pow(r) =~= word + b_pow(r));
    assert(Seq::<u8>::empty() + base + b_pow(r) =~= base + b_pow(r));
    lemma_conv_trans(rules, word + b_pow(r), base + b_pow(r), c);
}

/// Reduce a word and canonicalize: try all four orientations (appending up
/// to three B's and reducing) and pick the shortlex minimum; on ties the
/// fewer turns win.
pub fn canonicalize(word: &[u8], rules: &[RewriteRule]) -> (r: OrientedCell)
    requires
        rules_terminating(rules@),
        rules_turtle(rules@),
        is_turtle_word(word@),
    ensures
        canonical_for(rule_list_view(rules@), word@, r.id@, r.orientation as nat),
{
    let ghost rv = rule_list_view(rules@);
    let mut base = copy_word(word);
    reduce(&mut base, rules);
    assert(word@ + b_pow(0) =~= word@);
    assert(is_rot_form(rv, word@, 0, base@));
    proof {
        lemma_self_not_smaller(rv, word@, 0, base@);
    }
    let mut best = copy_word(&base);
    let mut best_rot: u8 = 0;
    let mut rotated = base;
    let ghost base_view = best@;
    let ghost mut forms: Seq<Seq<u8>> = seq![best@];
    proof {
        lemma_shortlex_irrefl(best@);
    }
    let mut rot: u8 = 1;
    while rot < 4
        invariant
            rv == rule_list_view(rules@),
            rules_terminating(rules@),
            rules_turtle(rules@),
            is_turtle_word(word@),
            1 <= rot <= 4,
            best_rot < rot,
            convertible(rv, word@, base_view),
            is_turtle_word(base_view),
            rotated@ == base_view + b_pow((rot - 1) as nat),
            is_rot_form(rv, word@, best_rot as nat, best@),
            is_turtle_word(best@),
            forall|q: nat| q < rot ==> #[trigger] rot_not_smaller(rv, word@, q, best@),
            forms.len() == rot,
            forms[best_rot as int] == best@,
            forall|q: int| 0 <= q < rot ==> is_rot_form(rv, word@, q as nat, #[trigger] forms[q]) && is_turtle_word(forms[q])
                && !shortlex_lt(turtle_rank_fn(), forms[q], best@),
            forall|q: int| 0 <= q < best_rot ==> shortlex_lt(turtle_rank_fn(), best@, #[trigger] forms[q]),
        decreases 4 - rot,
    {
        rotated.push(B);
        assert(rotated@ =~= base_view + b_pow(rot as nat));
        let mut candidate = copy_word(&rotated);
        proof {
            assert forall|i: int| 0 <= i < rotated@.len() implies #[trigger] rotated@[i] < 3 by {
                if i < base_view.len() {
                    assert(rotated@[i] == base_view[i]);
                }
            }
        }
        reduce(&mut candidate, rules);
        proof {
            lemma_rotated_form(rv, word@, base_view, rot as nat, candidate@);
        }
        let ghost prev_forms = forms;
        proof {
            forms = forms.push(candidate@);
        }
        if shortlex_less(&candidate, &best) {
            proof {
                lemma_shortlex_irrefl(candidate@);
                assert forall|q: int| 0 <= q < rot + 1 implies !shortlex_lt(turtle_rank_fn(), #[trigger] forms[q], candidate@) by {
                    if q < rot {
                        assert(forms[q] == prev_forms[q]);
                        if shortlex_lt(turtle_rank_fn(), forms[q], candidate@) {
                            lemma_shortlex_trans(forms[q], candidate@, best@);
                        }
                    }
                }
                assert forall|q: int| 0 <= q < rot implies shortlex_lt(turtle_rank_fn(), candidate@, #[trigger] forms[q]) by {
                    assert(forms[q] == prev_forms[q]);
                    assert(!shortlex_lt(turtle_rank_fn(), forms[q], best@));
                    lemma_turtle_total(forms[q], candidate@);
                    if shortlex_lt(turtle_rank_fn(), forms[q], candidate@) {
                        lemma_shortlex_trans(forms[q], candidate@, best@);
                    }
                }
                assert forall|q: nat| q < rot + 1 implies #[trigger] rot_not_smaller(rv, word@, q, candidate@) by {
                    if q < rot {
                        lemma_keep_smaller(rv, word@, q, best@, candidate@);
                    } else {
                        lemma_self_not_smaller(rv, word@, q, candidate@);
                    }
                }
            }
            best = candidate;
            best_rot = rot;
        } else {
            proof {
                assert(forall|q: int| 0 <= q < rot ==> forms[q] == prev_forms[q]);
                assert(is_rot_form(rv, word@, rot as nat, candidate@) && !shortlex_lt(turtle_rank_fn(), candidate@, best@));
                assert forall|q: nat| q < rot + 1 implies #[trigger] rot_not_smaller(rv, word@, q, best@) by {
                    if q == rot {
                        assert(is_rot_form(rv, word@, q, candidate@));
                    }
                }
            }
        }
        rot = rot + 1;
    }
    assert(rot_not_smaller(rv, word@, 0, best@));
    assert(rot_not_smaller(rv, word@, 1, best@));
    assert(rot_not_smaller(rv, word@, 2, best@));
    assert(rot_not_smaller(rv, word@, 3, best@));
    assert forall|q: nat| q < best_rot implies #[trigger] rot_greater(rv, word@, q, best@) by {
        assert(is_rot_form(rv, word@, q, forms[q as int]) && shortlex_lt(turtle_rank_fn(), best@, forms[q as int]));
    }
    let id = CellId { word: best };
    OrientedCell { id, orientation: best_rot }
}

/// The word that crosses edge `edge` of a cell: the cell's word, `edge`
/// left turns, then one step forward.
pub open spec fn crossing_word(cell: Seq<u8>, edge: nat) -> Seq<u8> {
    cell + b_pow(edge) + seq![A]
}

/// Compute the neighbor of a cell across a given edge.
///
/// `edge` is the edge index in the canonical frame of the cell: turn to face
/// it (append B^edge), cross (append A), then reduce and canonicalize.
pub fn neighbor(cell: &CellId, edge: u8, rules: &[RewriteRule]) -> (r: OrientedCell)
    requires
        rules_terminating(rules@),
        rules_turtle(rules@),
        is_turtle_word(cell@),
    ensures
        canonical_for(rule_list_view(rules@), crossing_word(cell@, edge as nat), r.id@, r.orientation as nat),
{
    let mut word = copy_word(&cell.word);
    let mut t: u8 = 0;
    while t < edge
        invariant
            t <= edge,
            word@ == cell@ + b_pow(t as nat),
            is_turtle_word(word@),
        decreases edge - t,
    {
        word.push(B);
        t = t + 1;
        assert(word@ =~= cell@ + b_pow(t as nat));
        assert forall|i: int| 0 <= i < word@.len() implies #[trigger] word@[i] < 3 by {
            if i < word@.len() - 1 {
                assert(word@[i] == (cell@ + b_pow((t - 1) as nat))[i]);
            }
        }
    }
    word.push(A);
    assert(word@ =~= crossing_word(cell@, edge as nat));
    assert forall|i: int| 0 <= i < word@.len() implies #[trigger] word@[i] < 3 by {
        if i < word@.len() - 1 {
            assert(word@[i] == (cell@ + b_pow(edge as nat))[i]);
        }
    }
    canonicalize(&word, rules)
}

/// Compute all four neighbors of a cell, for edges 0, 1, 2, 3 in its canonical frame.
pub fn all_neighbors(cell: &CellId, rules: &[RewriteRule]) -> (r: [OrientedCell; 4])
    requires
        rules_terminating(rules@),
        rules_turtle(rules@),
        is_turtle_word(cell@),
    ensures
        forall|e: int| 0 <= e < 4 ==> canonical_for(rule_list_view(rules@), crossing_word(cell@, e as nat), #[trigger] r@[e].id@, r@[e].orientation as nat),
{
    let n0 = neighbor(cell, 0, rules);
    let n1 = neighbor(cell, 1, rules);
    let n2 = neighbor(cell, 2, rules);
    let n3 = neighbor(cell, 3, rules);
    let r = [n0, n1, n2, n3];
    assert(r@[0] == n0 && r@[1] == n1 && r@[2] == n2 && r@[3] == n3);
    r
}

} // verus!
