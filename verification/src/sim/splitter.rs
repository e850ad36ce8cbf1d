//! Splitters: which belts feed a splitter and which it feeds, and the
//! operating mode that follows from their numbers.

use vstd::prelude::*;
use crate::game::world::EntityId;
use crate::sim::machine::{ids_distinct, index_in, lemma_index_in, swapped_out};

verus! {

/// How a splitter behaves, auto-detected from connected belt directions.
#[derive(Clone, Copy, Debug, PartialEq, Eq, Structural)]
pub enum SplitterMode {
    /// No inputs or no outputs connected.
    Inactive,
    /// Multiple inputs, one output — items merge round-robin.
    Merger,
    /// One input, multiple outputs — items split round-robin.
    Splitter,
    /// Two inputs, two outputs — balanced distribution.
    Balancer,
}

/// Per-splitter state.
#[derive(Clone, Debug)]
pub struct SplitterState {
    pub entity: EntityId,
    /// Belt entities feeding items into this splitter (output_end = Splitter).
    pub inputs: Vec<EntityId>,
    /// Belt entities receiving items from this splitter (input_end = Splitter).
    pub outputs: Vec<EntityId>,
    /// Auto-detected operating mode.
    pub mode: SplitterMode,
    /// Round-robin index for fair distribution across outputs (or inputs for merger).
    pub round_robin_idx: usize,
}

/// Pool of all placed splitters, densely packed.
pub struct SplitterPool {
    splitters: Vec<SplitterState>,
}

/// The mode of a splitter with `ni` inputs and `no` outputs.
pub open spec fn mode_for(ni: nat, no: nat) -> SplitterMode {
    if ni == 0 || no == 0 {
        SplitterMode::Inactive
    } else if ni == 1 {
        SplitterMode::Splitter
    } else if no == 1 {
        SplitterMode::Merger
    } else if ni == 2 && no == 2 {
        SplitterMode::Balancer
    } else {
        SplitterMode::Splitter
    }
}

/// `belts` with `belt` added at the end unless it is already there.
pub open spec fn with_belt(belts: Seq<EntityId>, belt: EntityId) -> Seq<EntityId> {
    if belts.contains(belt) {
        belts
    } else {
        belts.push(belt)
    }
}

/// `belts` without any occurrence of `belt`, in order.
pub open spec fn without_belt(belts: Seq<EntityId>, belt: EntityId) -> Seq<EntityId>
    decreases belts.len(),
{
    if belts.len() == 0 {
        belts
    } else {
        let rest = without_belt(belts.drop_last(), belt);
        if belts.last() != belt {
            rest.push(belts.last())
        } else {
            rest
        }
    }
}

/// `after` keeps the entity, mode and round-robin index of `before`.
pub open spec fn same_head(after: SplitterState, before: SplitterState) -> bool {
    &&& after.entity == before.entity
    &&& after.mode == before.mode
    &&& after.round_robin_idx == before.round_robin_idx
}

fn contains_belt(belts: &Vec<EntityId>, belt: EntityId) -> (r: bool)
    ensures
        r == belts@.contains(belt),
{
    let mut k: usize = 0;
    while k < belts.len()
        invariant
            k <= belts@.len(),
            forall|q: int| 0 <= q < k ==> belts@[q] != belt,
        decreases belts@.len() - k,
    {
        if belts[k] == belt {
            return true;
        }
        k = k + 1;
    }
    false
}

fn remove_belt(belts: &Vec<EntityId>, belt: EntityId) -> (r: Vec<EntityId>)
    ensures
        r@ == without_belt(belts@, belt),
{
    let mut out: Vec<EntityId> = Vec::new();
    let mut k: usize = 0;
    while k < belts.len()
        invariant
            k <= belts@.len(),
            out@ == without_belt(belts@.subrange(0, k as int), belt),
        decreases belts@.len() - k,
    {
        proof {
            assert(belts@.subrange(0, k as int + 1).drop_last() =~= belts@.subrange(0, k as int));
        }
        if belts[k] != belt {
            out.push(belts[k]);
        }
        k = k + 1;
    }
    assert(belts@.subrange(0, belts@.len() as int) =~= belts@);
    out
}

/// `after` is `before` with splitter `entity` added at the end: inactive,
/// with no belts.
pub open spec fn splitter_added(after: SplitterPool, before: SplitterPool, entity: EntityId) -> bool {
    &&& after.states().len() == before.states().len() + 1
    &&& after.states().drop_last() == before.states()
    &&& after.states().last().entity == entity
    &&& after.states().last().inputs@.len() == 0
    &&& after.states().last().outputs@.len() == 0
    &&& after.states().last().mode == SplitterMode::Inactive
    &&& after.states().last().round_robin_idx == 0
    &&& after.index_spec(entity) == Some(before.states().len() as int)
}

/// `after` is `before` with `belt` added once to splitter `s`'s inputs
/// (`input`) or outputs; nothing changes when `s` is unknown.
pub open spec fn belt_added(after: SplitterPool, before: SplitterPool, s: EntityId, belt: EntityId, input: bool) -> bool {
    match before.index_spec(s) {
        Some(i) => {
            let st = before.states()[i];
            &&& after.states().len() == before.states().len()
            &&& forall|k: int| 0 <= k < before.states().len() && k != i ==> #[trigger] after.states()[k] == before.states()[k]
            &&& same_head(after.states()[i], st)
            &&& after.states()[i].inputs@ == if input { with_belt(st.inputs@, belt) } else { st.inputs@ }
            &&& after.states()[i].outputs@ == if input { st.outputs@ } else { with_belt(st.outputs@, belt) }
        },
        None => after.states() == before.states(),
    }
}

/// `after` is `before` with splitter `s`'s mode set from its belt counts;
/// nothing changes when `s` is unknown.
pub open spec fn mode_detected(after: SplitterPool, before: SplitterPool, s: EntityId) -> bool {
    match before.index_spec(s) {
        Some(i) => {
            let st = before.states()[i];
            after.states() == before.states().update(i, SplitterState { mode: mode_for(st.inputs@.len(), st.outputs@.len()), ..st })
        },
        None => after.states() == before.states(),
    }
}

impl SplitterPool {
    /// The splitters, in dense order.
    pub closed spec fn states(&self) -> Seq<SplitterState> {
        self.splitters@
    }

    /// The entity of each splitter, in dense order.
    pub open spec fn ids(&self) -> Seq<EntityId> {
        self.states().map_values(|s: SplitterState| s.entity)
    }

    /// No entity occurs twice.
    pub open spec fn wf(&self) -> bool {
        ids_distinct(self.ids())
    }

    /// The dense index of `e`, if it is in the pool.
    pub open spec fn index_spec(&self, e: EntityId) -> Option<int> {
        index_in(self.ids(), e)
    }

    /// `after` is this pool with splitter `i` replaced by `s`.
    pub open spec fn with_state(&self, after: &SplitterPool, i: int, s: SplitterState) -> bool {
        after.states() == self.states().update(i, s)
    }

    pub fn new() -> (r: Self)
        ensures
            r.wf(),
            r.states().len() == 0,
    {
        SplitterPool { splitters: Vec::new() }
    }

    /// Number of active splitters.
    pub fn count(&self) -> (r: usize)
        ensures
            r == self.states().len(),
    {
        self.splitters.len()
    }

    /// Register a newly placed splitter, with no belts and inactive. Returns the dense index.
    pub fn add(&mut self, entity: EntityId) -> (r: usize)
        requires
            old(self).wf(),
            old(self).index_spec(entity) is None,
        ensures
            final(self).wf(),
            r == old(self).states().len(),
            splitter_added(*final(self), *old(self), entity),
    {
        let idx = self.splitters.len();
        self.splitters.push(SplitterState {
            entity,
            inputs: Vec::new(),
            outputs: Vec::new(),
            mode: SplitterMode::Inactive,
            round_robin_idx: 0,
        });
        proof {
            let n = idx as int;
            let ids = self.ids();
            assert forall|q: int| 0 <= q < n implies #[trigger] ids[q] == old(self).ids()[q] by {}
            assert forall|i: int, j: int| 0 <= i < j < ids.len() implies ids[i] != ids[j] by {
                if j == n {
                    if ids[i] == entity {
                        assert(old(self).ids()[i] == entity);
                    }
                } else {
                    assert(old(self).ids()[i] != old(self).ids()[j]);
                }
            }
            assert(self.splitters@.drop_last() =~= old(self).splitters@);
            lemma_index_in(ids, n);
        }
        idx
    }

    /// Remove a splitter by EntityId: the last splitter moves into its place.
    pub fn remove(&mut self, entity: EntityId) -> (r: bool)
        requires
            old(self).wf(),
        ensures
            final(self).wf(),
            r == old(self).index_spec(entity) is Some,
            !r ==> final(self).states() == old(self).states(),
            r ==> final(self).states() == swapped_out(old(self).states(), old(self).index_spec(entity)->0),
            final(self).index_spec(entity) is None,
            forall|x: EntityId| #[trigger] final(self).index_spec(x) is Some ==> old(self).index_spec(x) is Some,
    {
        let idx = match self.index_of(entity) {
            Some(i) => i,
            None => return false,
        };
        self.splitters.swap_remove(idx);
        proof {
            let o = old(self).ids();
            let ids = self.ids();
            let last = (o.len() - 1) as int;
            assert(self.splitters@ =~= swapped_out(old(self).splitters@, idx as int));
            let m = |q: int| if q == idx { last } else { q };
            assert forall|q: int| 0 <= q < ids.len() implies ids[q] == o[m(q)] by {}
            assert forall|i: int, j: int| 0 <= i < j < ids.len() implies ids[i] != ids[j] by {
                assert(ids[i] == o[m(i)] && ids[j] == o[m(j)]);
                if m(i) < m(j) {
                    assert(o[m(i)] != o[m(j)]);
                } else {
                    assert(o[m(j)] != o[m(i)]);
                }
            }
            assert forall|q: int| 0 <= q < ids.len() implies ids[q] != entity by {
                assert(ids[q] == o[m(q)]);
                if m(q) < idx {
                    assert(o[m(q)] != o[idx as int]);
                } else {
                    assert(o[idx as int] != o[m(q)]);
                }
            }
            assert forall|x: EntityId| #[trigger] index_in(ids, x) is Some implies index_in(o, x) is Some by {
                let q = choose|q: int| 0 <= q < ids.len() && ids[q] == x;
                assert(ids[q] == o[m(q)]);
            }
        }
        true
    }

    /// Look up the dense index for an EntityId.
    pub fn index_of(&self, entity: EntityId) -> (r: Option<usize>)
        requires
            self.wf(),
        ensures
            match r {
                Some(i) => self.index_spec(entity) == Some(i as int) && i < self.states().len(),
                None => self.index_spec(entity) is None,
            },
    {
        let mut i: usize = 0;
        while i < self.splitters.len()
            invariant
                self.wf(),
                i <= self.splitters@.len(),
                forall|j: int| 0 <= j < i ==> self.ids()[j] != entity,
            decreases self.splitters@.len() - i,
        {
            if self.splitters[i].entity == entity {
                proof {
                    lemma_index_in(self.ids(), i as int);
                }
                return Some(i);
            }
            i = i + 1;
        }
        proof {
            assert forall|j: int| 0 <= j < self.ids().len() implies self.ids()[j] != entity by {}
        }
        None
    }

    /// The splitter state for an entity.
    pub fn get(&self, entity: EntityId) -> (r: Option<&SplitterState>)
        requires
            self.wf(),
        ensures
            match self.index_spec(entity) {
                Some(i) => r is Some && *r->0 == self.states()[i],
                None => r is None,
            },
    {
        match self.index_of(entity) {
            Some(i) => Some(&self.splitters[i]),
            None => None,
        }
    }

    /// The splitter state for an entity, to change in place.
    pub fn get_mut(&mut self, entity: EntityId) -> (r: Option<&mut SplitterState>)
        requires
            old(self).wf(),
        ensures
            match old(self).index_spec(entity) {
                Some(i) => r is Some && *r->0 == old(self).states()[i]
                    && final(self).states() == old(self).states().update(i, *final(r->0)),
                None => r is None && final(self).states() == old(self).states(),
            },
    {
        match self.index_of(entity) {
            Some(i) => Some(&mut self.splitters[i]),
            None => None,
        }
    }

    /// Keeps `wf` across a change to one splitter that keeps its entity.
    proof fn lemma_same_ids(&self, after: &SplitterPool, i: int)
        requires
            self.wf(),
            0 <= i < self.states().len(),
            after.states().len() == self.states().len(),
            after.states()[i].entity == self.states()[i].entity,
            forall|k: int| 0 <= k < self.states().len() && k != i ==> #[trigger] after.states()[k] == self.states()[k],
        ensures
            after.ids() == self.ids(),
            after.wf(),
    {
        assert forall|q: int| 0 <= q < self.ids().len() implies #[trigger] after.ids()[q] == self.ids()[q] by {
            if q != i {
                assert(after.states()[q] == self.states()[q]);
            }
        }
        assert(after.ids() =~= self.ids());
    }

    /// Re-detect the operating mode from the current input and output counts.
    pub fn detect_mode(&mut self, entity: EntityId)
        requires
            old(self).wf(),
        ensures
            final(self).wf(),
            mode_detected(*final(self), *old(self), entity),
            final(self).ids() == old(self).ids(),
    {
        let i = match self.index_of(entity) {
            Some(i) => i,
            None => return,
        };
        let s = &mut self.splitters[i];
        let ni = s.inputs.len();
        let no = s.outputs.len();
        s.mode = if ni == 0 || no == 0 {
            SplitterMode::Inactive
        } else if ni == 1 {
            SplitterMode::Splitter // one input: pass-through or split
        } else if no == 1 {
            SplitterMode::Merger
        } else if ni == 2 && no == 2 {
            SplitterMode::Balancer
        } else {
            SplitterMode::Splitter // mixed: treat as splitter on outputs
        };
        proof {
            old(self).lemma_same_ids(self, i as int);
        }
    }

    /// Register a belt entity as an input to this splitter (once).
    pub fn add_input(&mut self, splitter: EntityId, belt: EntityId)
        requires
            old(self).wf(),
        ensures
            final(self).wf(),
            belt_added(*final(self), *old(self), splitter, belt, true),
            final(self).ids() == old(self).ids(),
    {
        let i = match self.index_of(splitter) {
            Some(i) => i,
            None => return,
        };
        let s = &mut self.splitters[i];
        if !contains_belt(&s.inputs, belt) {
            s.inputs.push(belt);
        }
        proof {
            old(self).lemma_same_ids(self, i as int);
        }
    }

    /// Register a belt entity as an output from this splitter (once).
    pub fn add_output(&mut self, splitter: EntityId, belt: EntityId)
        requires
            old(self).wf(),
        ensures
            final(self).wf(),
            belt_added(*final(self), *old(self), splitter, belt, false),
            final(self).ids() == old(self).ids(),
    {
        let i = match self.index_of(splitter) {
            Some(i) => i,
            None => return,
        };
        let s = &mut self.splitters[i];
        if !contains_belt(&s.outputs, belt) {
            s.outputs.push(belt);
        }
        proof {
            old(self).lemma_same_ids(self, i as int);
        }
    }

    /// Remove a belt entity from this splitter's inputs and outputs.
    pub fn disconnect_belt(&mut self, splitter: EntityId, belt: EntityId)
        requires
            old(self).wf(),
        ensures
            final(self).wf(),
            match old(self).index_spec(splitter) {
                Some(i) => {
                    let s = old(self).states()[i];
                    &&& final(self).states().len() == old(self).states().len()
                    &&& forall|k: int| 0 <= k < old(self).states().len() && k != i ==> #[trigger] final(self).states()[k] == old(self).states()[k]
                    &&& same_head(final(self).states()[i], s)
                    &&& final(self).states()[i].inputs@ == without_belt(s.inputs@, belt)
                    &&& final(self).states()[i].outputs@ == without_belt(s.outputs@, belt)
                },
                None => final(self).states() == old(self).states(),
            },
            final(self).ids() == old(self).ids(),
    {
        let i = match self.index_of(splitter) {
            Some(i) => i,
            None => return,
        };
        let s = &mut self.splitters[i];
        let ins = remove_belt(&s.inputs, belt);
        let outs = remove_belt(&s.outputs, belt);
        s.inputs = ins;
        s.outputs = outs;
        proof {
            old(self).lemma_same_ids(self, i as int);
        }
    }
}

proof fn lemma_without_absent(belts: Seq<EntityId>, belt: EntityId)
    ensures
        !without_belt(belts, belt).contains(belt),
    decreases belts.len(),
{
    if belts.len() > 0 {
        lemma_without_absent(belts.drop_last(), belt);
        let rest = without_belt(belts.drop_last(), belt);
        if belts.last() != belt {
            assert forall|j: int| 0 <= j < rest.push(belts.last()).len() implies rest.push(belts.last())[j] != belt by {
                if j < rest.len() {
                    assert(!rest.contains(belt));
                    assert(rest[j] != belt);
                }
            }
        }
    }
}

proof fn lemma_without_pushed(belts: Seq<EntityId>, belt: EntityId)
    ensures
        without_belt(belts.push(belt), belt) == without_belt(belts, belt),
{
    assert(belts.push(belt).drop_last() =~= belts);
}

/// Connecting a belt twice is connecting it once; and disconnecting a belt
/// after connecting it leaves the list as disconnecting it alone would, with
/// the belt absent.
pub proof fn lemma_connect_idempotent(belts: Seq<EntityId>, belt: EntityId)
    ensures
        with_belt(with_belt(belts, belt), belt) == with_belt(belts, belt),
        with_belt(belts, belt).contains(belt),
        without_belt(with_belt(belts, belt), belt) == without_belt(belts, belt),
        !without_belt(with_belt(belts, belt), belt).contains(belt),
{
    if !belts.contains(belt) {
        assert(belts.push(belt)[belts.len() as int] == belt);
        lemma_without_pushed(belts, belt);
    }
    lemma_without_absent(with_belt(belts, belt), belt);
}

} // verus!
