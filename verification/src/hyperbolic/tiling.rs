//! Exact combinatorics of the {4,q} tiling: turtle facing and parity of a
//! word, the neighbor identities of a tile, and display strings of cells.

use vstd::prelude::*;
use crate::hyperbolic::cell_id::{CellId, canonical_for, crossing_word, neighbor, rules_turtle, b_pow};
use crate::hyperbolic::rewrite::{A, B, B_INV, RewriteRule, rule_list_view, rules_terminating, is_turtle_word, letter_char, push_char};

verus! {

/// Facing edge (0-3) of the turtle after walking `w` from edge 0:
/// `a` turns it around (+2), `B` turns left (+1), `b` turns right (+3).
pub open spec fn word_facing(w: Seq<u8>) -> nat
    decreases w.len(),
{
    if w.len() == 0 {
        0
    } else {
        let f = word_facing(w.drop_last());
        let c = w.last();
        if c == A {
            (f + 2) % 4
        } else if c == B {
            (f + 1) % 4
        } else {
            (f + 3) % 4
        }
    }
}

/// Whether `w` crosses an odd number of edges.
pub open spec fn word_parity(w: Seq<u8>) -> bool
    decreases w.len(),
{
    if w.len() == 0 {
        false
    } else {
        let p = word_parity(w.drop_last());
        if w.last() == A {
            !p
        } else {
            p
        }
    }
}

/// Compute turtle facing direction and parity from a word.
/// Facing: the physical edge index (0-3) the turtle faces after walking the word.
/// Parity: true if the word holds an odd number of `a` letters (edge crossings).
pub fn word_facing_parity(word: &[u8]) -> (r: (u8, bool))
    requires
        is_turtle_word(word@),
    ensures
        r.0 == word_facing(word@),
        r.1 == word_parity(word@),
        r.0 < 4,
{
    let mut facing: u8 = 0;
    let mut parity = false;
    let mut i: usize = 0;
    while i < word.len()
        invariant
            i <= word.len(),
            is_turtle_word(word@),
            facing < 4,
            facing == word_facing(word@.subrange(0, i as int)),
            parity == word_parity(word@.subrange(0, i as int)),
        decreases word.len() - i,
    {
        let letter = word[i];
        assert(word@.subrange(0, i + 1).drop_last() =~= word@.subrange(0, i as int));
        assert(letter < 3);
        if letter == A {
            parity = !parity;
            facing = (facing + 2) % 4;
        } else if letter == B {
            facing = (facing + 1) % 4;
        } else {
            facing = (facing + 3) % 4;
        }
        i = i + 1;
    }
    assert(word@.subrange(0, word@.len() as int) =~= word@);
    (facing, parity)
}

/// The canonical edge of a cell that faces physical direction `dir` when
/// the turtle faces `facing`.
pub open spec fn cell_edge(dir: nat, facing: nat) -> nat {
    ((dir + 4 - facing) % 4) as nat
}

/// `n` is the canonical cell across physical edge `dir` of the cell `id`
/// whose turtle faces `facing`.
pub open spec fn is_neighbor_id(rules: Seq<RewriteRule>, id: Seq<u8>, facing: nat, dir: nat, n: Seq<u8>) -> bool {
    exists|rot: nat| #[trigger] canonical_for(rule_list_view(rules), crossing_word(id, cell_edge(dir, facing)), n, rot)
}

/// Compute the four neighbor CellIds of a tile by physical edge, mapping
/// each physical edge to the edge in the cell's canonical frame.
pub fn compute_neighbors(id: &CellId, facing: u8, rules: &[RewriteRule]) -> (r: [CellId; 4])
    requires
        facing < 4,
        rules_terminating(rules@),
        rules_turtle(rules@),
        is_turtle_word(id@),
    ensures
        forall|dir: int| 0 <= dir < 4 ==> #[trigger] is_neighbor_id(rules@, id@, facing as nat, dir as nat, r@[dir]@),
{
    let n0 = neighbor(id, (4 - facing) % 4, rules);
    let n1 = neighbor(id, (5 - facing) % 4, rules);
    let n2 = neighbor(id, (6 - facing) % 4, rules);
    let n3 = neighbor(id, (7 - facing) % 4, rules);
    let ghost o0 = n0.orientation as nat;
    let ghost o1 = n1.orientation as nat;
    let ghost o2 = n2.orientation as nat;
    let ghost o3 = n3.orientation as nat;
    let r = [n0.id, n1.id, n2.id, n3.id];
    assert forall|dir: int| 0 <= dir < 4 implies #[trigger] is_neighbor_id(rules@, id@, facing as nat, dir as nat, r@[dir]@) by {
        if dir == 0 {
            assert(canonical_for(rule_list_view(rules@), crossing_word(id@, cell_edge(0, facing as nat)), r@[0]@, o0));
        } else if dir == 1 {
            assert(canonical_for(rule_list_view(rules@), crossing_word(id@, cell_edge(1, facing as nat)), r@[1]@, o1));
        } else if dir == 2 {
            assert(canonical_for(rule_list_view(rules@), crossing_word(id@, cell_edge(2, facing as nat)), r@[2]@, o2));
        } else {
            assert(canonical_for(rule_list_view(rules@), crossing_word(id@, cell_edge(3, facing as nat)), r@[3]@, o3));
        }
    }
    r
}

/// Turning the turtle left `k` times adds `k` to its facing.
pub proof fn lemma_facing_after_turns(w: Seq<u8>, k: nat)
    ensures
        word_facing(w + b_pow(k)) == (word_facing(w) + k) % 4,
    decreases k,
{
    if k == 0 {
        assert(w + b_pow(0) =~= w);
    } else {
        lemma_facing_after_turns(w, (k - 1) as nat);
        assert((w + b_pow(k)).drop_last() =~= w + b_pow((k - 1) as nat));
        assert((w + b_pow(k)).last() == B);
    }
}

/// Each physical edge of a tile gets the tile across it: where the tile's
/// turtle faces `word_facing(id)`, the neighbour at physical edge `dir` is
/// the canonical cell reached by turning the turtle left until it faces
/// `dir` (`k` turns) and stepping forward.
pub proof fn lemma_neighbor_across_faced_edge(
    rules: Seq<RewriteRule>,
    id: Seq<u8>,
    nbrs: Seq<Seq<u8>>,
    dir: nat,
    k: nat,
)
    requires
        nbrs.len() == 4,
        forall|d: int| 0 <= d < 4 ==> #[trigger] is_neighbor_id(rules, id, word_facing(id), d as nat, nbrs[d]),
        dir < 4,
        k < 4,
        word_facing(id + b_pow(k)) == dir,
    ensures
        exists|rot: nat| #[trigger] canonical_for(rule_list_view(rules), crossing_word(id, k), nbrs[dir as int], rot),
{
    lemma_facing_after_turns(id, k);
    lemma_facing_below_four(id);
    let d: int = dir as int;
    assert(is_neighbor_id(rules, id, word_facing(id), d as nat, nbrs[d]));
    assert(cell_edge(dir, word_facing(id)) == k);
}

/// A facing is one of the four edges.
pub proof fn lemma_facing_below_four(w: Seq<u8>)
    ensures
        word_facing(w) < 4,
    decreases w.len(),
{
}

/// Display form of a cell: `O` for the origin, the word's letters when it
/// has at most 8 of them, else `..` and its last 6 letters.
pub open spec fn cell_display(w: Seq<u8>) -> Seq<char> {
    if w.len() == 0 {
        seq!['O']
    } else if w.len() > 8 {
        seq!['.', '.'] + w.subrange(w.len() - 6, w.len() as int).map_values(|c: u8| letter_char(c))
    } else {
        w.map_values(|c: u8| letter_char(c))
    }
}

/// Append the display letters of `w[lo..hi]` to `s`.
fn push_letters(s: &mut String, w: &[u8], lo: usize, hi: usize)
    requires
        lo <= hi <= w.len(),
    ensures
        final(s)@ == old(s)@ + w@.subrange(lo as int, hi as int).map_values(|c: u8| letter_char(c)),
{
    let ghost start = s@;
    let mut i = lo;
    while i < hi
        invariant
            lo <= i <= hi <= w.len(),
            s@ == start + w@.subrange(lo as int, i as int).map_values(|c: u8| letter_char(c)),
        decreases hi - i,
    {
        let c = w[i];
        let ch = if c == A {
            'a'
        } else if c == B {
            'B'
        } else if c == B_INV {
            'b'
        } else {
            '?'
        };
        push_char(s, ch);
        i = i + 1;
        assert(s@ =~= start + w@.subrange(lo as int, i as int).map_values(|c: u8| letter_char(c)));
    }
}

/// Format a CellId for display (turtle word notation).
pub fn format_cell_id(id: &CellId) -> (r: String)
    ensures
        r@ == cell_display(id@),
{
    let w = id.word();
    if w.len() == 0 {
        let mut s = String::new();
        push_char(&mut s, 'O');
        assert(s@ =~= seq!['O']);
        return s;
    }
    let mut s = String::new();
    if w.len() > 8 {
        push_char(&mut s, '.');
        push_char(&mut s, '.');
        push_letters(&mut s, w, w.len() - 6, w.len());
        assert(s@ =~= cell_display(id@));
    } else {
        push_letters(&mut s, w, 0, w.len());
        assert(w@.subrange(0, w@.len() as int) =~= w@);
        assert(s@ =~= cell_display(id@));
    }
    s
}

/// The digit character for a value below 10.
pub open spec fn digit_char(d: nat) -> char {
    (48 + d) as char
}

/// Decimal representation of a byte.
pub open spec fn decimal(d: u8) -> Seq<char> {
    if d < 10 {
        seq![digit_char(d as nat)]
    } else if d < 100 {
        seq![digit_char((d / 10) as nat), digit_char((d % 10) as nat)]
    } else {
        seq![digit_char((d / 100) as nat), digit_char(((d / 10) % 10) as nat), digit_char((d % 10) as nat)]
    }
}

/// Concatenated decimal representations of the bytes of `w`.
pub open spec fn decimals(w: Seq<u8>) -> Seq<char>
    decreases w.len(),
{
    if w.len() == 0 {
        Seq::empty()
    } else {
        decimals(w.drop_last()) + decimal(w.last())
    }
}

/// Display form of a tile address: `O` when empty, the decimal digits of its
/// entries when it has at most 5, else `..` and the last 5 entries.
pub open spec fn address_display(addr: Seq<u8>) -> Seq<char> {
    if addr.len() == 0 {
        seq!['O']
    } else if addr.len() > 5 {
        seq!['.', '.'] + decimals(addr.subrange(addr.len() - 5, addr.len() as int))
    } else {
        decimals(addr)
    }
}

fn digit(d: u8) -> (c: char)
    requires
        d < 10,
    ensures
        c == digit_char(d as nat),
{
    let code: u8 = 48 + d;
    code as char
}

fn push_decimal(s: &mut String, d: u8)
    ensures
        final(s)@ == old(s)@ + decimal(d),
{
    if d < 10 {
        push_char(s, digit(d));
    } else if d < 100 {
        push_char(s, digit(d / 10));
        push_char(s, digit(d % 10));
    } else {
        push_char(s, digit(d / 100));
        push_char(s, digit((d / 10) % 10));
        push_char(s, digit(d % 10));
    }
    assert(final(s)@ =~= old(s)@ + decimal(d));
}

/// Format a tile address for display.
pub fn format_address(addr: &[u8]) -> (r: String)
    ensures
        r@ == address_display(addr@),
{
    let mut s = String::new();
    if addr.len() == 0 {
        push_char(&mut s, 'O');
        assert(s@ =~= seq!['O']);
        return s;
    }
    let lo: usize = if addr.len() > 5 {
        push_char(&mut s, '.');
        push_char(&mut s, '.');
        addr.len() - 5
    } else {
        0
    };
    let ghost start = s@;
    let mut i = lo;
    while i < addr.len()
        invariant
            lo <= i <= addr.len(),
            s@ == start + decimals(addr@.subrange(lo as int, i as int)),
        decreases addr.len() - i,
    {
        assert(addr@.subrange(lo as int, i + 1).drop_last() =~= addr@.subrange(lo as int, i as int));
        push_decimal(&mut s, addr[i]);
        i = i + 1;
        assert(s@ =~= start + decimals(addr@.subrange(lo as int, i as int)));
    }
    if addr.len() > 5 {
        assert(start =~= seq!['.', '.']);
    } else {
        assert(start =~= Seq::<char>::empty());
        assert(addr@.subrange(0, addr@.len() as int) =~= addr@);
    }
    assert(s@ =~= address_display(addr@));
    s
}

} // verus!
