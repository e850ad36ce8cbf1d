//! Pasting a clipboard: whether it may be pasted at all, and in which order
//! its structures are placed.

use vstd::prelude::*;
use crate::game::items::ItemId;
use crate::game::inventory::{Inventory, count_in};
use crate::game::world::{StructureKind, WorldState};
use crate::game::blueprint::{Clipboard, BlueprintEntry, can_paste, paste_fits, required_items, tally, is_tally_of};

verus! {

/// Why a clipboard cannot be pasted.
#[derive(Clone, Copy, Debug, PartialEq, Eq, Structural)]
pub enum PasteRefusal {
    /// Some structure would overlap one already there.
    Collision,
    /// The inventory holds `missing` too few of `item`.
    Short { item: ItemId, missing: u32 },
}

/// Every entry of the clipboard fits at `anchor` on `tile`.
pub open spec fn all_fit(w: WorldState, tile: Seq<u8>, anchor: (i32, i32), entries: Seq<BlueprintEntry>) -> bool {
    forall|i: int| 0 <= i < entries.len() ==> paste_fits(w, tile, anchor, #[trigger] entries[i])
}

/// The inventory holds every item the entries need.
pub open spec fn affordable(inv: Map<ItemId, u32>, entries: Seq<BlueprintEntry>) -> bool {
    forall|item: ItemId| #[trigger] tally(entries, item) <= count_in(inv, item)
}

/// Whether a clipboard may be pasted at `anchor` on tile `address`: `None`
/// when every structure fits and, unless placement is free, the inventory
/// holds every item the clipboard needs; otherwise a collision, or an item
/// that the inventory holds too few of, with how many are missing.
pub fn paste_refusal(
    world: &WorldState,
    address: &[u8],
    anchor: (i32, i32),
    clipboard: &Clipboard,
    inventory: &Inventory,
    free_placement: bool,
) -> (r: Option<PasteRefusal>)
    requires
        world.wf(),
        forall|i: int| 0 <= i < clipboard.entries@.len() ==> {
            let o = (#[trigger] clipboard.entries@[i]).offset;
            &&& i32::MIN <= anchor.0 + o.0
            &&& anchor.0 + o.0 + 3 <= i32::MAX
            &&& i32::MIN <= anchor.1 + o.1
            &&& anchor.1 + o.1 + 3 <= i32::MAX
        },
        forall|item: ItemId| tally(clipboard.entries@, item) <= u16::MAX,
    ensures
        (r == Some(PasteRefusal::Collision)) == !all_fit(*world, address@, anchor, clipboard.entries@),
        r is None == (all_fit(*world, address@, anchor, clipboard.entries@) && (free_placement || affordable(
            inventory@,
            clipboard.entries@,
        ))),
        r matches Some(PasteRefusal::Short { item, missing }) ==> !free_placement && count_in(inventory@, item)
            < tally(clipboard.entries@, item) && missing == tally(clipboard.entries@, item) - count_in(
            inventory@,
            item,
        ),
{
    let ghost entries = clipboard.entries@;
    let checks = can_paste(world, address, anchor, clipboard);
    let mut i: usize = 0;
    while i < checks.len()
        invariant
            checks@.len() == entries.len(),
            entries == clipboard.entries@,
            forall|q: int| 0 <= q < checks@.len() ==> (#[trigger] checks@[q]).0 == q && checks@[q].1 == paste_fits(
                *world,
                address@,
                anchor,
                entries[q],
            ),
            i <= checks@.len(),
            forall|q: int| 0 <= q < i ==> paste_fits(*world, address@, anchor, #[trigger] entries[q]),
        decreases checks@.len() - i,
    {
        if !checks[i].1 {
            return Some(PasteRefusal::Collision);
        }
        i = i + 1;
    }
    assert(all_fit(*world, address@, anchor, entries));
    if free_placement {
        return None;
    }
    let costs = required_items(clipboard);
    let mut k: usize = 0;
    while k < costs.len()
        invariant
            entries == clipboard.entries@,
            is_tally_of(costs@, entries),
            all_fit(*world, address@, anchor, entries),
            !free_placement,
            k <= costs@.len(),
            forall|q: int| 0 <= q < k ==> (#[trigger] costs@[q]).1 <= count_in(inventory@, costs@[q].0),
        decreases costs@.len() - k,
    {
        let (item, count) = costs[k];
        let have = inventory.count(item);
        assert(costs@[k as int].1 == tally(entries, item));
        if have < count as u32 {
            return Some(PasteRefusal::Short { item, missing: count as u32 - have });
        }
        k = k + 1;
    }
    assert forall|item: ItemId| #[trigger] tally(entries, item) <= count_in(inventory@, item) by {
        if tally(entries, item) > 0 {
            let q = choose|q: int| 0 <= q < costs@.len() && (#[trigger] costs@[q]).0 == item;
            assert(costs@[q].1 <= count_in(inventory@, costs@[q].0));
        }
    }
    None
}

/// The positions of the entries of `entries` among the first `n`, in order,
/// that are belts (`belts`) or are not.
pub open spec fn kind_indices(entries: Seq<BlueprintEntry>, n: nat, belts: bool) -> Seq<int>
    decreases n,
{
    if n == 0 {
        Seq::<int>::empty()
    } else {
        let prev = kind_indices(entries, (n - 1) as nat, belts);
        if (entries[n - 1].kind == StructureKind::Belt) == belts {
            prev.push(n - 1)
        } else {
            prev
        }
    }
}

/// The order a paste places the entries in: every structure but the belts
/// first, then the belts, each in clipboard order, so that belts placed
/// last link to the buildings already there.
pub open spec fn paste_order(entries: Seq<BlueprintEntry>) -> Seq<int> {
    kind_indices(entries, entries.len(), false) + kind_indices(entries, entries.len(), true)
}

/// The entries' positions among the first `n` of one kind, appended to `out`.
fn collect_kind(entries: &Vec<BlueprintEntry>, belts: bool, out: &mut Vec<usize>)
    ensures
        final(out)@.map_values(|x: usize| x as int) == old(out)@.map_values(|x: usize| x as int) + kind_indices(
            entries@,
            entries@.len(),
            belts,
        ),
{
    let ghost start = out@.map_values(|x: usize| x as int);
    let mut i: usize = 0;
    while i < entries.len()
        invariant
            i <= entries@.len(),
            out@.map_values(|x: usize| x as int) == start + kind_indices(entries@, i as nat, belts),
        decreases entries@.len() - i,
    {
        let is_belt = entries[i].kind == StructureKind::Belt;
        let ghost before = out@.map_values(|x: usize| x as int);
        if is_belt == belts {
            out.push(i);
            assert(out@.map_values(|x: usize| x as int) =~= before.push(i as int));
        }
        i = i + 1;
        assert(out@.map_values(|x: usize| x as int) =~= start + kind_indices(entries@, i as nat, belts));
    }
}

/// The indices of the clipboard's entries in the order a paste places them:
/// every structure but the belts first, then the belts, each in clipboard
/// order.
pub fn paste_order_of(clipboard: &Clipboard) -> (r: Vec<usize>)
    ensures
        r@.map_values(|x: usize| x as int) == paste_order(clipboard.entries@),
{
    let mut out: Vec<usize> = Vec::new();
    assert(out@.map_values(|x: usize| x as int) =~= Seq::<int>::empty());
    collect_kind(&clipboard.entries, false, &mut out);
    collect_kind(&clipboard.entries, true, &mut out);
    assert(Seq::<int>::empty() + kind_indices(clipboard.entries@, clipboard.entries@.len(), false)
        =~= kind_indices(clipboard.entries@, clipboard.entries@.len(), false));
    out
}

/// Whether entry `x` of `entries` is a belt.
pub open spec fn is_belt_entry(entries: Seq<BlueprintEntry>, x: int) -> bool {
    entries[x].kind == StructureKind::Belt
}

proof fn lemma_kind_indices(entries: Seq<BlueprintEntry>, n: nat, belts: bool)
    requires
        n <= entries.len(),
    ensures
        forall|k: int| 0 <= k < kind_indices(entries, n, belts).len() ==> 0 <= #[trigger] kind_indices(entries, n, belts)[k] < n
            && is_belt_entry(entries, kind_indices(entries, n, belts)[k]) == belts,
        forall|k1: int, k2: int| 0 <= k1 < k2 < kind_indices(entries, n, belts).len() ==> #[trigger] kind_indices(
            entries,
            n,
            belts,
        )[k1] < #[trigger] kind_indices(entries, n, belts)[k2],
        forall|x: int| 0 <= x < n && #[trigger] is_belt_entry(entries, x) == belts ==> exists|k: int| 0 <= k < kind_indices(
            entries,
            n,
            belts,
        ).len() && kind_indices(entries, n, belts)[k] == x,
    decreases n,
{
    if n > 0 {
        let m = (n - 1) as nat;
        lemma_kind_indices(entries, m, belts);
        let prev = kind_indices(entries, m, belts);
        let cur = kind_indices(entries, n, belts);
        if is_belt_entry(entries, m as int) == belts {
            assert(cur == prev.push(m as int));
            assert forall|x: int| 0 <= x < n && #[trigger] is_belt_entry(entries, x) == belts implies exists|k: int| 0 <= k < cur.len()
                && cur[k] == x by {
                if x < m {
                    let k = choose|k: int| 0 <= k < prev.len() && prev[k] == x;
                    assert(cur[k] == x);
                } else {
                    assert(cur[prev.len() as int] == x);
                }
            }
        } else {
            assert(cur == prev);
        }
    }
}

proof fn lemma_kind_indices_count(entries: Seq<BlueprintEntry>, n: nat)
    requires
        n <= entries.len(),
    ensures
        kind_indices(entries, n, false).len() + kind_indices(entries, n, true).len() == n,
    decreases n,
{
    if n > 0 {
        lemma_kind_indices_count(entries, (n - 1) as nat);
    }
}

/// A paste places every entry of the clipboard exactly once: the order is
/// a permutation of the entries' indices, with every structure but the
/// belts before every belt, and each of the two groups in clipboard order.
pub proof fn lemma_paste_order_permutation(entries: Seq<BlueprintEntry>)
    ensures
        paste_order(entries).len() == entries.len(),
        forall|k: int| 0 <= k < paste_order(entries).len() ==> 0 <= #[trigger] paste_order(entries)[k] < entries.len(),
        forall|i: int| 0 <= i < entries.len() ==> #[trigger] paste_order(entries).contains(i),
        forall|k1: int, k2: int| 0 <= k1 < k2 < paste_order(entries).len() ==> #[trigger] paste_order(entries)[k1]
            != #[trigger] paste_order(entries)[k2],
        forall|k1: int, k2: int| 0 <= k1 < k2 < paste_order(entries).len() && is_belt_entry(entries, #[trigger] paste_order(entries)[k1])
            ==> is_belt_entry(entries, #[trigger] paste_order(entries)[k2]),
        forall|k1: int, k2: int| 0 <= k1 < k2 < paste_order(entries).len() && is_belt_entry(entries, #[trigger] paste_order(entries)[k1])
            == is_belt_entry(entries, #[trigger] paste_order(entries)[k2]) ==> paste_order(entries)[k1] < paste_order(entries)[k2],
{
    let n = entries.len();
    let a = kind_indices(entries, n, false);
    let b = kind_indices(entries, n, true);
    let o = paste_order(entries);
    lemma_kind_indices(entries, n, false);
    lemma_kind_indices(entries, n, true);
    lemma_kind_indices_count(entries, n);
    assert(o == a + b);
    assert forall|k: int| 0 <= k < o.len() implies 0 <= #[trigger] o[k] < n && is_belt_entry(entries, o[k]) == (k >= a.len()) by {
        if k < a.len() {
            assert(o[k] == a[k]);
        } else {
            assert(o[k] == b[k - a.len()]);
        }
    }
    assert forall|i: int| 0 <= i < n implies #[trigger] paste_order(entries).contains(i) by {
        if is_belt_entry(entries, i) {
            let k = choose|k: int| 0 <= k < b.len() && b[k] == i;
            assert(paste_order(entries)[a.len() + k] == i);
        } else {
            let k = choose|k: int| 0 <= k < a.len() && a[k] == i;
            assert(paste_order(entries)[k] == i);
        }
    }
    assert forall|k1: int, k2: int| 0 <= k1 < k2 < o.len() && is_belt_entry(entries, #[trigger] o[k1]) == is_belt_entry(
        entries,
        #[trigger] o[k2],
    ) implies o[k1] < o[k2] by {
        if k2 < a.len() {
            assert(o[k1] == a[k1] && o[k2] == a[k2]);
        } else if k1 >= a.len() {
            assert(o[k1] == b[k1 - a.len()] && o[k2] == b[k2 - a.len()]);
        }
    }
    assert forall|k1: int, k2: int| 0 <= k1 < k2 < o.len() implies #[trigger] o[k1] != #[trigger] o[k2] by {
        if is_belt_entry(entries, o[k1]) == is_belt_entry(entries, o[k2]) {
        }
    }
}

} // verus!
