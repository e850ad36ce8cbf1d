//! The player's inventory: a count per item kind.

use vstd::prelude::*;
use crate::game::items::{ItemId, ITEM_COUNT, item_index, spec_all_items, lemma_all_items_complete};

verus! {

/// Item counts. An item is either absent or present with a count (a count
/// of zero stays present until removed).
#[derive(Debug)]
pub struct Inventory {
    /// Indexed by catalogue position.
    items: Vec<Option<u32>>,
}

/// Count of `item` in `m`: 0 when absent.
pub open spec fn count_in(m: Map<ItemId, u32>, item: ItemId) -> u32 {
    if m.contains_key(item) {
        m[item]
    } else {
        0
    }
}

/// The inventory after adding `n` of `item`.
pub open spec fn after_add(m: Map<ItemId, u32>, item: ItemId, n: u32) -> Map<ItemId, u32> {
    m.insert(item, (count_in(m, item) + n) as u32)
}

/// Whether removing `n` of `item` succeeds.
pub open spec fn can_remove(m: Map<ItemId, u32>, item: ItemId, n: u32) -> bool {
    count_in(m, item) >= n
}

/// The inventory after removing `n` of `item` (when that succeeds): the entry
/// goes when nothing is left.
pub open spec fn after_remove(m: Map<ItemId, u32>, item: ItemId, n: u32) -> Map<ItemId, u32> {
    if !can_remove(m, item, n) {
        m
    } else if count_in(m, item) == n {
        m.remove(item)
    } else {
        m.insert(item, (count_in(m, item) - n) as u32)
    }
}

/// Entries of `m` for the first `k` catalogue items, in catalogue order,
/// keeping those that satisfy `keep`.
pub open spec fn entries_upto(m: Map<ItemId, u32>, k: nat, nonzero: bool) -> Seq<(ItemId, u32)>
    decreases k,
{
    if k == 0 {
        Seq::empty()
    } else {
        let item = spec_all_items()[k - 1];
        let rest = entries_upto(m, (k - 1) as nat, nonzero);
        if m.contains_key(item) && (!nonzero || m[item] > 0) {
            rest.push((item, m[item]))
        } else {
            rest
        }
    }
}

impl View for Inventory {
    type V = Map<ItemId, u32>;

    closed spec fn view(&self) -> Map<ItemId, u32> {
        Map::new(
            |i: ItemId| self.items@[item_index(i) as int] is Some,
            |i: ItemId| self.items@[item_index(i) as int]->Some_0,
        )
    }
}

impl Inventory {
    #[verifier::type_invariant]
    closed spec fn inv(self) -> bool {
        self.items@.len() == ITEM_COUNT
    }

    pub fn new() -> (r: Self)
        ensures
            r@ == Map::<ItemId, u32>::empty(),
    {
        let mut items: Vec<Option<u32>> = Vec::new();
        let mut k: usize = 0;
        while k < ITEM_COUNT
            invariant
                k <= ITEM_COUNT,
                items@.len() == k,
                forall|j: int| 0 <= j < k ==> #[trigger] items@[j] is None,
            decreases ITEM_COUNT - k,
        {
            items.push(None);
            k = k + 1;
        }
        let r = Inventory { items };
        assert(r@ =~= Map::<ItemId, u32>::empty()) by {
            assert forall|i: ItemId| !r@.contains_key(i) by {
                lemma_all_items_complete(i);
            }
        }
        r
    }

    /// One belt and one quadrupole.
    pub fn starting_inventory() -> (r: Self)
        ensures
            r@ == map![ItemId::Belt => 1u32, ItemId::Quadrupole => 1u32],
    {
        let mut inv = Self::new();
        inv.add(ItemId::Belt, 1);
        inv.add(ItemId::Quadrupole, 1);
        assert(inv@ =~= map![ItemId::Belt => 1u32, ItemId::Quadrupole => 1u32]);
        inv
    }

    /// Add `count` of `item`.
    pub fn add(&mut self, item: ItemId, count: u32)
        requires
            count_in(old(self)@, item) + count <= u32::MAX,
        ensures
            final(self)@ == after_add(old(self)@, item, count),
    {
        proof {
            use_type_invariant(&*self);
        }
        let k = item.index();
        let current = match self.items[k] {
            Some(c) => c,
            None => 0,
        };
        let updated = with_entry(&self.items, k, Some(current + count));
        *self = Inventory { items: updated };
        proof {
            lemma_all_items_complete(item);
            assert forall|i: ItemId| #[trigger] item_index(i) == item_index(item) implies i == item by {
                lemma_all_items_complete(i);
            }
        }
        assert(self@ =~= after_add(old(self)@, item, count));
    }

    /// Remove `count` of `item`. Fails, changing nothing, when fewer are held.
    pub fn remove(&mut self, item: ItemId, count: u32) -> (r: bool)
        ensures
            r == can_remove(old(self)@, item, count),
            final(self)@ == after_remove(old(self)@, item, count),
    {
        proof {
            use_type_invariant(&*self);
        }
        let k = item.index();
        let current = match self.items[k] {
            Some(c) => c,
            None => 0,
        };
        if current < count {
            return false;
        }
        proof {
            assert forall|i: ItemId| #[trigger] item_index(i) == item_index(item) implies i == item by {
                lemma_all_items_complete(i);
                lemma_all_items_complete(item);
            }
        }
        if current == count {
            let updated = with_entry(&self.items, k, None);
            *self = Inventory { items: updated };
            assert(self@ =~= after_remove(old(self)@, item, count));
        } else {
            let updated = with_entry(&self.items, k, Some(current - count));
            *self = Inventory { items: updated };
            assert(self@ =~= after_remove(old(self)@, item, count));
        }
        true
    }

    /// How many of `item` are held (0 when absent).
    pub fn count(&self, item: ItemId) -> (r: u32)
        ensures
            r == count_in(self@, item),
    {
        proof {
            use_type_invariant(self);
        }
        match self.items[item.index()] {
            Some(c) => c,
            None => 0,
        }
    }

    fn entries(&self, nonzero: bool) -> (r: Vec<(ItemId, u32)>)
        ensures
            r@ == entries_upto(self@, ITEM_COUNT as nat, nonzero),
    {
        proof {
            use_type_invariant(self);
        }
        let mut out: Vec<(ItemId, u32)> = Vec::new();
        let mut k: usize = 0;
        while k < ITEM_COUNT
            invariant
                k <= ITEM_COUNT,
                self.items@.len() == ITEM_COUNT,
                out@ == entries_upto(self@, k as nat, nonzero),
            decreases ITEM_COUNT - k,
        {
            let item = ItemId::from_index(k);
            proof {
                lemma_all_items_complete(item);
            }
            match self.items[k] {
                Some(c) => {
                    if !nonzero || c > 0 {
                        out.push((item, c));
                    }
                },
                None => {},
            }
            k = k + 1;
        }
        out
    }

    /// Every held entry `(item, count)`, in catalogue order.
    pub fn iter(&self) -> (r: Vec<(ItemId, u32)>)
        ensures
            r@ == entries_upto(self@, ITEM_COUNT as nat, false),
    {
        self.entries(false)
    }

    /// Entries with a positive count, in catalogue order.
    pub fn non_empty_items(&self) -> (r: Vec<(ItemId, u32)>)
        ensures
            r@ == entries_upto(self@, ITEM_COUNT as nat, true),
    {
        self.entries(true)
    }
}

impl Default for Inventory {
    fn default() -> (r: Self)
        ensures
            r@ == Map::<ItemId, u32>::empty(),
    {
        Self::new()
    }
}

impl Clone for Inventory {
    fn clone(&self) -> (r: Self)
        ensures
            r@ == self@,
    {
        proof {
            use_type_invariant(self);
        }
        let items = with_entry(&self.items, 0, self.items[0]);
        assert(items@ =~= self.items@);
        Inventory { items }
    }
}

/// A copy of `items` with entry `k` replaced.
fn with_entry(items: &Vec<Option<u32>>, k: usize, val: Option<u32>) -> (r: Vec<Option<u32>>)
    requires
        k < items@.len(),
    ensures
        r@ == items@.update(k as int, val),
{
    let mut out: Vec<Option<u32>> = Vec::new();
    let mut j: usize = 0;
    while j < items.len()
        invariant
            j <= items.len(),
            k < items@.len(),
            out@ == items@.update(k as int, val).subrange(0, j as int),
        decreases items.len() - j,
    {
        if j == k {
            out.push(val);
        } else {
            let e = match items[j] {
                Some(c) => Some(c),
                None => None,
            };
            out.push(e);
        }
        j = j + 1;
        assert(out@ =~= items@.update(k as int, val).subrange(0, j as int));
    }
    assert(out@ =~= items@.update(k as int, val));
    out
}

/// Adding `n` of an item and then removing `n` of it succeeds and gives the
/// inventory back (unless the item was held with a count of zero: then the
/// emptied entry goes).
pub proof fn lemma_add_then_remove(m: Map<ItemId, u32>, item: ItemId, n: u32)
    requires
        count_in(m, item) + n <= u32::MAX,
        !(m.contains_key(item) && m[item] == 0),
    ensures
        can_remove(after_add(m, item, n), item, n),
        after_remove(after_add(m, item, n), item, n) == m,
{
    let a = after_add(m, item, n);
    assert(after_remove(a, item, n) =~= m);
}

/// A failed removal leaves the count; a successful one lowers it by the amount.
pub proof fn lemma_remove_count(m: Map<ItemId, u32>, item: ItemId, n: u32)
    ensures
        can_remove(m, item, n) ==> count_in(after_remove(m, item, n), item) == count_in(m, item) - n,
        !can_remove(m, item, n) ==> after_remove(m, item, n) == m,
{
}

} // verus!
