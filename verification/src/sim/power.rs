//! Power networks: producers and consumers that stand close together in the
//! same tile form a network, and every node of a network is supplied in the
//! ratio of the network's production to its consumption.
//!
//! Rates are whole units per tick and a satisfaction is the exact fraction
//! `supplied / demanded`, capped at one.

use vstd::prelude::*;
use crate::game::world::EntityId;
use crate::hyperbolic::words::{copy_word, words_equal};
use crate::sim::machine::{MachinePool, ids_distinct, index_in, lemma_index_in, swapped_out};

verus! {

/// Power connection radius in grid squares.
pub const POWER_RADIUS: i64 = 8;

/// Power production rate for a Quadrupole.
pub const QUADRUPOLE_RATE: u32 = 2;

/// Power production rate for a Dynamo.
pub const DYNAMO_RATE: u32 = 8;

/// Power consumption rate for a machine.
pub const MACHINE_CONSUMPTION: u32 = 1;

#[derive(Clone, Copy, Debug, PartialEq, Eq, Structural)]
pub enum PowerNodeKind {
    Producer,
    Consumer,
}

/// How well a node is supplied: the fraction `supplied / demanded`, between
/// zero and one.
#[derive(Clone, Copy, Debug, PartialEq, Eq, Structural)]
pub struct Satisfaction {
    pub supplied: u64,
    pub demanded: u64,
}

/// A fully supplied node.
pub open spec fn full() -> Satisfaction {
    Satisfaction { supplied: 1, demanded: 1 }
}

/// A node that receives nothing.
pub open spec fn unpowered() -> Satisfaction {
    Satisfaction { supplied: 0, demanded: 1 }
}

/// The satisfaction of a network producing `p` and consuming `c`: the ratio
/// capped at one, and one where nothing is consumed.
pub open spec fn ratio_of(p: int, c: int) -> Satisfaction {
    if c > 0 && p < c {
        Satisfaction { supplied: p as u64, demanded: c as u64 }
    } else {
        full()
    }
}

impl Satisfaction {
    /// A fraction in `[0, 1]` with a positive denominator.
    pub open spec fn valid(self) -> bool {
        self.demanded > 0 && self.supplied <= self.demanded
    }

    /// Whether the node receives any power at all.
    pub fn is_powered(&self) -> (r: bool)
        ensures
            r == (self.supplied > 0),
    {
        self.supplied > 0
    }
}

#[derive(Clone, Debug)]
pub struct PowerNode {
    pub entity: EntityId,
    pub kind: PowerNodeKind,
    pub rate: u32,
    pub tile: Vec<u8>,
    pub gx: i16,
    pub gy: i16,
    /// Whether this node is exempt from power requirements (e.g. Source machines).
    pub exempt: bool,
}

/// Power network: tracks all power-relevant entities, builds a connection
/// graph based on proximity, and solves connected-component ratio-based
/// power distribution each tick.
pub struct PowerNetwork {
    nodes: Vec<PowerNode>,
    /// Per-node power satisfaction.
    satisfaction: Vec<Satisfaction>,
    /// Adjacency list (rebuilt when dirty).
    adjacency: Vec<Vec<usize>>,
    /// Whether the graph needs rebuilding.
    dirty: bool,
}

/// The entities of the nodes, in order.
pub open spec fn node_ids(nodes: Seq<PowerNode>) -> Seq<EntityId> {
    nodes.map_values(|n: PowerNode| n.entity)
}

/// Whether two distinct nodes are within power range of each other: in the
/// same tile, at a squared grid distance of at most the squared radius.
pub open spec fn linked(nodes: Seq<PowerNode>, i: int, j: int) -> bool {
    &&& 0 <= i < nodes.len()
    &&& 0 <= j < nodes.len()
    &&& i != j
    &&& nodes[i].tile@ == nodes[j].tile@
    &&& {
        let dx = nodes[i].gx - nodes[j].gx;
        let dy = nodes[i].gy - nodes[j].gy;
        dx * dx + dy * dy <= POWER_RADIUS * POWER_RADIUS
    }
}

/// Whether `p` is a path of nodes, each linked to the next.
pub open spec fn is_path(nodes: Seq<PowerNode>, p: Seq<int>) -> bool {
    &&& p.len() > 0
    &&& forall|i: int| 0 <= i < p.len() ==> 0 <= #[trigger] p[i] < nodes.len()
    &&& forall|i: int| 0 <= i < p.len() - 1 ==> linked(nodes, #[trigger] p[i], p[i + 1])
}

/// Whether nodes `a` and `b` belong to the same network: a path leads from
/// one to the other.
pub open spec fn connected(nodes: Seq<PowerNode>, a: int, b: int) -> bool {
    exists|p: Seq<int>| #[trigger] is_path(nodes, p) && p[0] == a && p.last() == b
}

/// What the producers among the first `k` nodes of `a`'s network produce.
pub open spec fn supply_in(nodes: Seq<PowerNode>, a: int, k: int) -> int
    decreases k,
{
    if k <= 0 {
        0
    } else {
        let j = k - 1;
        supply_in(nodes, a, j) + if connected(nodes, a, j) && nodes[j].kind == PowerNodeKind::Producer {
            nodes[j].rate as int
        } else {
            0
        }
    }
}

/// What the non-exempt consumers among the first `k` nodes of `a`'s network
/// consume.
pub open spec fn demand_in(nodes: Seq<PowerNode>, a: int, k: int) -> int
    decreases k,
{
    if k <= 0 {
        0
    } else {
        let j = k - 1;
        demand_in(nodes, a, j) + if connected(nodes, a, j) && nodes[j].kind == PowerNodeKind::Consumer
            && !nodes[j].exempt {
            nodes[j].rate as int
        } else {
            0
        }
    }
}

/// The satisfaction that solving gives node `i`: full where it is exempt,
/// else the ratio of its network's production to its consumption.
pub open spec fn solved_value(nodes: Seq<PowerNode>, i: int) -> Satisfaction {
    if nodes[i].exempt {
        full()
    } else {
        ratio_of(supply_in(nodes, i, nodes.len() as int), demand_in(nodes, i, nodes.len() as int))
    }
}

/// Whether the machine `e` runs once the network has supplied it: where the
/// network knows it, it runs when it receives any power; elsewhere it keeps
/// `before`.
pub open spec fn powered_by(nodes: Seq<PowerNode>, sats: Seq<Satisfaction>, e: EntityId, before: bool) -> bool {
    match index_in(node_ids(nodes), e) {
        Some(j) => sats[j].supplied > 0,
        None => before,
    }
}

/// Whether `adj` lists, for each node, exactly the nodes linked to it.
pub open spec fn adjacency_exact(nodes: Seq<PowerNode>, adj: Seq<Vec<usize>>) -> bool {
    &&& adj.len() == nodes.len()
    &&& forall|i: int, k: int| 0 <= i < adj.len() && 0 <= k < adj[i]@.len()
        ==> linked(nodes, i, #[trigger] adj[i]@[k] as int)
    &&& forall|i: int, j: int| #[trigger] linked(nodes, i, j) ==> adj[i]@.contains(j as usize)
}

/// Whether node `n` holds the given fields.
pub open spec fn node_is(
    n: PowerNode,
    entity: EntityId,
    kind: PowerNodeKind,
    rate: u32,
    tile: Seq<u8>,
    gx: i16,
    gy: i16,
    exempt: bool,
) -> bool {
    &&& n.entity == entity
    &&& n.kind == kind
    &&& n.rate == rate
    &&& n.tile@ == tile
    &&& n.gx == gx
    &&& n.gy == gy
    &&& n.exempt == exempt
}


/// Linked nodes are linked both ways.
pub proof fn lemma_linked_symmetric(nodes: Seq<PowerNode>, i: int, j: int)
    requires
        linked(nodes, i, j),
    ensures
        linked(nodes, j, i),
{
    let dx = nodes[i].gx - nodes[j].gx;
    let dy = nodes[i].gy - nodes[j].gy;
    assert((-dx) * (-dx) == dx * dx) by (nonlinear_arith);
    assert((-dy) * (-dy) == dy * dy) by (nonlinear_arith);
}

/// Being in the same network is symmetric.
pub proof fn lemma_connected_symmetric(nodes: Seq<PowerNode>, a: int, b: int)
    requires
        connected(nodes, a, b),
    ensures
        connected(nodes, b, a),
{
    let p = choose|p: Seq<int>| #[trigger] is_path(nodes, p) && p[0] == a && p.last() == b;
    let q = p.reverse();
    let n = p.len();
    assert forall|i: int| 0 <= i < q.len() - 1 implies linked(nodes, #[trigger] q[i], q[i + 1]) by {
        assert(q[i] == p[n - 1 - i] && q[i + 1] == p[n - 2 - i]);
        assert(linked(nodes, p[n - 2 - i], p[(n - 2 - i) + 1]));
        lemma_linked_symmetric(nodes, p[n - 2 - i], p[n - 1 - i]);
    }
    assert forall|i: int| 0 <= i < q.len() implies 0 <= #[trigger] q[i] < nodes.len() by {
        assert(q[i] == p[n - 1 - i]);
    }
    assert(is_path(nodes, q) && q[0] == b && q.last() == a);
}

/// Being in the same network is transitive.
pub proof fn lemma_connected_transitive(nodes: Seq<PowerNode>, a: int, b: int, c: int)
    requires
        connected(nodes, a, b),
        connected(nodes, b, c),
    ensures
        connected(nodes, a, c),
{
    let p = choose|p: Seq<int>| #[trigger] is_path(nodes, p) && p[0] == a && p.last() == b;
    let q = choose|q: Seq<int>| #[trigger] is_path(nodes, q) && q[0] == b && q.last() == c;
    let r = p.drop_last() + q;
    let n = p.len() - 1;
    assert forall|i: int| 0 <= i < r.len() implies 0 <= #[trigger] r[i] < nodes.len() by {
        if i < n {
            assert(r[i] == p[i]);
        } else {
            assert(r[i] == q[i - n]);
        }
    }
    assert forall|i: int| 0 <= i < r.len() - 1 implies linked(nodes, #[trigger] r[i], r[i + 1]) by {
        if i < n - 1 {
            assert(r[i] == p[i] && r[i + 1] == p[i + 1]);
        } else if i == n - 1 {
            assert(r[i] == p[i] && r[i + 1] == q[0] && q[0] == p[i + 1]);
        } else {
            assert(r[i] == q[i - n] && r[i + 1] == q[i - n + 1]);
        }
    }
    assert(r[0] == a) by {
        if n == 0 {
            assert(r[0] == q[0]);
        } else {
            assert(r[0] == p[0]);
        }
    }
    assert(is_path(nodes, r) && r[0] == a && r.last() == c);
}

/// A node reaches every node that is linked to one it reaches.
proof fn lemma_connected_step(nodes: Seq<PowerNode>, a: int, c: int, d: int)
    requires
        connected(nodes, a, c),
        linked(nodes, c, d),
    ensures
        connected(nodes, a, d),
{
    let p = choose|p: Seq<int>| #[trigger] is_path(nodes, p) && p[0] == a && p.last() == c;
    let q = p.push(d);
    assert forall|i: int| 0 <= i < q.len() implies 0 <= #[trigger] q[i] < nodes.len() by {
        if i < p.len() {
            assert(q[i] == p[i]);
        }
    }
    assert forall|i: int| 0 <= i < q.len() - 1 implies linked(nodes, #[trigger] q[i], q[i + 1]) by {
        if i < p.len() - 1 {
            assert(q[i] == p[i] && q[i + 1] == p[i + 1]);
        }
    }
    assert(is_path(nodes, q) && q[0] == a && q.last() == d);
}

proof fn lemma_connected_self(nodes: Seq<PowerNode>, a: int)
    requires
        0 <= a < nodes.len(),
    ensures
        connected(nodes, a, a),
{
    let p = seq![a];
    assert(is_path(nodes, p) && p[0] == a && p.last() == a);
}

proof fn lemma_connected_in_range(nodes: Seq<PowerNode>, a: int, b: int)
    requires
        connected(nodes, a, b),
    ensures
        0 <= a < nodes.len(),
        0 <= b < nodes.len(),
{
    let p = choose|p: Seq<int>| #[trigger] is_path(nodes, p) && p[0] == a && p.last() == b;
    assert(0 <= p[0] < nodes.len());
    assert(0 <= p[p.len() - 1] < nodes.len());
}

/// A set of nodes, given as the indices that `owner` maps to `v`, that holds
/// `a` and every node linked to one of its members holds every node that
/// `a` reaches.
proof fn lemma_closed_holds_path(nodes: Seq<PowerNode>, owner: Seq<usize>, v: usize, p: Seq<int>, i: int)
    requires
        owner.len() == nodes.len(),
        is_path(nodes, p),
        owner[p[0]] == v,
        forall|x: int, y: int| #[trigger] linked(nodes, x, y) && owner[x] == v ==> owner[y] == v,
        0 <= i < p.len(),
    ensures
        owner[p[i]] == v,
    decreases i,
{
    if i > 0 {
        lemma_closed_holds_path(nodes, owner, v, p, i - 1);
        assert(linked(nodes, p[i - 1], p[(i - 1) + 1]));
    }
}

proof fn lemma_closed_holds_connected(nodes: Seq<PowerNode>, owner: Seq<usize>, v: usize, a: int, b: int)
    requires
        owner.len() == nodes.len(),
        owner[a] == v,
        forall|x: int, y: int| #[trigger] linked(nodes, x, y) && owner[x] == v ==> owner[y] == v,
        connected(nodes, a, b),
    ensures
        owner[b] == v,
{
    let p = choose|p: Seq<int>| #[trigger] is_path(nodes, p) && p[0] == a && p.last() == b;
    lemma_closed_holds_path(nodes, owner, v, p, p.len() - 1);
}

/// Nodes of one network see the same production and consumption.
pub proof fn lemma_same_network_totals(nodes: Seq<PowerNode>, a: int, b: int, k: int)
    requires
        connected(nodes, a, b),
    ensures
        supply_in(nodes, a, k) == supply_in(nodes, b, k),
        demand_in(nodes, a, k) == demand_in(nodes, b, k),
    decreases k,
{
    if k > 0 {
        lemma_same_network_totals(nodes, a, b, k - 1);
        let j = k - 1;
        if connected(nodes, a, j) {
            lemma_connected_symmetric(nodes, a, b);
            lemma_connected_transitive(nodes, b, a, j);
        }
        if connected(nodes, b, j) {
            lemma_connected_transitive(nodes, a, b, j);
        }
    }
}

proof fn lemma_totals_bounded(nodes: Seq<PowerNode>, a: int, k: int)
    requires
        0 <= k,
    ensures
        0 <= supply_in(nodes, a, k) <= k * 0xffff_ffff,
        0 <= demand_in(nodes, a, k) <= k * 0xffff_ffff,
    decreases k,
{
    if k > 0 {
        lemma_totals_bounded(nodes, a, k - 1);
    }
}

/// All non-exempt nodes of one network are supplied alike.
pub proof fn lemma_network_shares_satisfaction(nodes: Seq<PowerNode>, i: int, j: int)
    requires
        connected(nodes, i, j),
        !nodes[i].exempt,
        !nodes[j].exempt,
    ensures
        solved_value(nodes, i) == solved_value(nodes, j),
{
    lemma_same_network_totals(nodes, i, j, nodes.len() as int);
}

proof fn lemma_path_in_tile(nodes: Seq<PowerNode>, p: Seq<int>, i: int)
    requires
        is_path(nodes, p),
        0 <= i < p.len(),
    ensures
        nodes[p[i]].tile@ == nodes[p[0]].tile@,
    decreases i,
{
    if i > 0 {
        lemma_path_in_tile(nodes, p, i - 1);
        assert(linked(nodes, p[i - 1], p[(i - 1) + 1]));
    }
}

/// A network never spans two tiles.
pub proof fn lemma_network_within_tile(nodes: Seq<PowerNode>, a: int, b: int)
    requires
        connected(nodes, a, b),
    ensures
        nodes[a].tile@ == nodes[b].tile@,
{
    let p = choose|p: Seq<int>| #[trigger] is_path(nodes, p) && p[0] == a && p.last() == b;
    lemma_path_in_tile(nodes, p, p.len() - 1);
}

/// What solving gives a node is a fraction between zero and one.
pub proof fn lemma_solved_value_valid(nodes: Seq<PowerNode>, i: int)
    requires
        0 <= i < nodes.len(),
        nodes.len() <= u32::MAX,
    ensures
        solved_value(nodes, i).valid(),
{
    lemma_totals_bounded(nodes, i, nodes.len() as int);
    assert(nodes.len() * 0xffff_ffff <= 0xffff_ffff * 0xffff_ffff) by (nonlinear_arith)
        requires
            nodes.len() <= 0xffff_ffff,
    ;
}

/// The number of entries of `s` that are zero.
spec fn count_zero(s: Seq<usize>) -> nat
    decreases s.len(),
{
    if s.len() == 0 {
        0
    } else {
        count_zero(s.drop_last()) + if s.last() == 0 { 1nat } else { 0nat }
    }
}

proof fn lemma_count_zero_set(s: Seq<usize>, d: int, v: usize)
    requires
        0 <= d < s.len(),
        s[d] == 0,
        v != 0,
    ensures
        count_zero(s.update(d, v)) + 1 == count_zero(s),
    decreases s.len(),
{
    let t = s.update(d, v);
    if d == s.len() - 1 {
        assert(t.drop_last() =~= s.drop_last());
    } else {
        assert(t.drop_last() =~= s.drop_last().update(d, v));
        lemma_count_zero_set(s.drop_last(), d, v);
    }
}

/// Whether nodes `a` and `b` are in range, computed exactly.
fn in_range(a: &PowerNode, b: &PowerNode) -> (r: bool)
    ensures
        r == (a.tile@ == b.tile@ && {
            let dx = a.gx - b.gx;
            let dy = a.gy - b.gy;
            dx * dx + dy * dy <= POWER_RADIUS * POWER_RADIUS
        }),
{
    if !words_equal(a.tile.as_slice(), b.tile.as_slice()) {
        return false;
    }
    let dx: i64 = a.gx as i64 - b.gx as i64;
    let dy: i64 = a.gy as i64 - b.gy as i64;
    assert(0 <= dx * dx <= 65536 * 65536) by (nonlinear_arith)
        requires
            -65536 <= dx <= 65536,
    ;
    assert(0 <= dy * dy <= 65536 * 65536) by (nonlinear_arith)
        requires
            -65536 <= dy <= 65536,
    ;
    dx * dx + dy * dy <= POWER_RADIUS * POWER_RADIUS
}

impl PowerNetwork {
    /// After propagation a machine that the network knows runs exactly when
    /// its node receives some power: a machine supplied only in part, with
    /// `0 < supplied < demanded`, still runs.
    pub proof fn lemma_propagated_runs_when_supplied(self, before: MachinePool, after: MachinePool, i: int, j: int)
        requires
            self.wf(),
            0 <= i < before.count,
            after.hot.powered@[i] == powered_by(
                self.node_seq(),
                self.sat_seq(),
                before.cold.entity_id@[i],
                before.hot.powered@[i],
            ),
            0 <= j < self.node_seq().len(),
            self.node_seq()[j].entity == before.cold.entity_id@[i],
        ensures
            after.hot.powered@[i] == (self.sat_seq()[j].supplied > 0),
            0 < self.sat_seq()[j].supplied < self.sat_seq()[j].demanded ==> after.hot.powered@[i],
    {
        lemma_index_in(node_ids(self.nodes@), j);
    }

    /// A machine that no node of the network stands for keeps whether it
    /// was powered.
    pub proof fn lemma_propagated_unknown_kept(self, before: MachinePool, after: MachinePool, i: int)
        requires
            self.wf(),
            0 <= i < before.count,
            after.hot.powered@[i] == powered_by(
                self.node_seq(),
                self.sat_seq(),
                before.cold.entity_id@[i],
                before.hot.powered@[i],
            ),
            forall|j: int| 0 <= j < self.node_seq().len() ==> (#[trigger] self.node_seq()[j]).entity != before.cold.entity_id@[i],
        ensures
            after.hot.powered@[i] == before.hot.powered@[i],
    {
        let ids = node_ids(self.nodes@);
        if index_in(ids, before.cold.entity_id@[i]) is Some {
            let j = index_in(ids, before.cold.entity_id@[i])->0;
            assert(0 <= j < ids.len() && ids[j] == before.cold.entity_id@[i]);
            assert(self.node_seq()[j].entity == ids[j]);
        }
    }

    /// The registered nodes, in order.
    pub closed spec fn node_seq(&self) -> Seq<PowerNode> {
        self.nodes@
    }

    /// The satisfaction of each node, in the order of `node_seq`.
    pub closed spec fn sat_seq(&self) -> Seq<Satisfaction> {
        self.satisfaction@
    }

    /// The network's invariant: one satisfaction per node, each a valid
    /// fraction, no entity twice, and a clean graph that matches the nodes.
    pub closed spec fn wf(&self) -> bool {
        &&& self.satisfaction@.len() == self.nodes@.len()
        &&& self.nodes@.len() <= u32::MAX
        &&& ids_distinct(node_ids(self.nodes@))
        &&& forall|i: int| 0 <= i < self.satisfaction@.len() ==> (#[trigger] self.satisfaction@[i]).valid()
        &&& !self.dirty ==> adjacency_exact(self.nodes@, self.adjacency@)
    }

    pub fn new() -> (r: Self)
        ensures
            r.wf(),
            r.node_seq().len() == 0,
            r.sat_seq().len() == 0,
    {
        PowerNetwork { nodes: Vec::new(), satisfaction: Vec::new(), adjacency: Vec::new(), dirty: false }
    }

    /// Position of `entity` among the nodes.
    fn find(&self, entity: EntityId) -> (r: Option<usize>)
        requires
            self.wf(),
        ensures
            r matches Some(i) ==> i < self.nodes@.len() && index_in(node_ids(self.nodes@), entity) == Some(
                i as int,
            ),
            r is None ==> index_in(node_ids(self.nodes@), entity) is None,
    {
        let ghost ids = node_ids(self.nodes@);
        let mut i: usize = 0;
        while i < self.nodes.len()
            invariant
                self.wf(),
                ids == node_ids(self.nodes@),
                i <= self.nodes@.len(),
                forall|j: int| 0 <= j < i ==> ids[j] != entity,
            decreases self.nodes@.len() - i,
        {
            if self.nodes[i].entity == entity {
                proof {
                    lemma_index_in(ids, i as int);
                }
                return Some(i);
            }
            i = i + 1;
        }
        None
    }

    /// Register a power node (producer or consumer).
    pub fn add(
        &mut self,
        entity: EntityId,
        kind: PowerNodeKind,
        rate: u32,
        tile: &[u8],
        gx: i16,
        gy: i16,
        exempt: bool,
    )
        requires
            old(self).wf(),
            index_in(node_ids(old(self).node_seq()), entity) is None,
            old(self).node_seq().len() < u32::MAX,
        ensures
            final(self).wf(),
            final(self).node_seq().len() == old(self).node_seq().len() + 1,
            final(self).node_seq().drop_last() == old(self).node_seq(),
            node_is(final(self).node_seq().last(), entity, kind, rate, tile@, gx, gy, exempt),
            index_in(node_ids(final(self).node_seq()), entity) == Some(old(self).node_seq().len() as int),
            final(self).sat_seq() == old(self).sat_seq().push(if exempt { full() } else { unpowered() }),
    {
        let ghost old_ids = node_ids(self.nodes@);
        self.nodes.push(PowerNode { entity, kind, rate, tile: copy_word(tile), gx, gy, exempt });
        self.satisfaction.push(
            if exempt {
                Satisfaction { supplied: 1, demanded: 1 }
            } else {
                Satisfaction { supplied: 0, demanded: 1 }
            },
        );
        self.dirty = true;
        proof {
            let ids = node_ids(self.nodes@);
            assert(ids == old_ids.push(entity));
            assert forall|i: int, j: int| 0 <= i < j < ids.len() implies ids[i] != ids[j] by {
                if j == ids.len() - 1 {
                    if ids[i] == entity {
                        assert(old_ids[i] == entity);
                    }
                } else {
                    assert(old_ids[i] != old_ids[j]);
                }
            }
            assert(self.nodes@.drop_last() =~= old(self).nodes@);
            lemma_index_in(ids, ids.len() - 1);
        }
    }

    /// Remove a power node by entity ID; the last node takes its place.
    pub fn remove(&mut self, entity: EntityId) -> (r: bool)
        requires
            old(self).wf(),
        ensures
            final(self).wf(),
            r == (index_in(node_ids(old(self).node_seq()), entity) is Some),
            index_in(node_ids(final(self).node_seq()), entity) is None,
            match index_in(node_ids(old(self).node_seq()), entity) {
                Some(i) => {
                    &&& final(self).node_seq() == swapped_out(old(self).node_seq(), i)
                    &&& final(self).sat_seq() == swapped_out(old(self).sat_seq(), i)
                },
                None => {
                    &&& final(self).node_seq() == old(self).node_seq()
                    &&& final(self).sat_seq() == old(self).sat_seq()
                },
            },
    {
        let found = self.find(entity);
        match found {
            None => false,
            Some(idx) => {
                let ghost old_nodes = self.nodes@;
                let ghost old_ids = node_ids(self.nodes@);
                let last = self.nodes.len() - 1;
                self.nodes.swap_remove(idx);
                self.satisfaction.swap_remove(idx);
                self.dirty = true;
                proof {
                    let ids = node_ids(self.nodes@);
                    assert(self.nodes@ =~= swapped_out(old_nodes, idx as int));
                    assert(self.satisfaction@ =~= swapped_out(old(self).satisfaction@, idx as int));
                    assert forall|i: int, j: int| 0 <= i < j < ids.len() implies ids[i] != ids[j] by {
                        let oi = if i == idx { last as int } else { i };
                        let oj = if j == idx { last as int } else { j };
                        assert(ids[i] == old_ids[oi]);
                        assert(ids[j] == old_ids[oj]);
                        if oi < oj {
                            assert(old_ids[oi] != old_ids[oj]);
                        } else {
                            assert(old_ids[oj] != old_ids[oi]);
                        }
                    }
                    assert forall|i: int| 0 <= i < self.satisfaction@.len() implies (
                    #[trigger] self.satisfaction@[i]).valid() by {
                        if i == idx {
                            assert(self.satisfaction@[i] == old(self).satisfaction@[last as int]);
                        } else {
                            assert(self.satisfaction@[i] == old(self).satisfaction@[i]);
                        }
                    }
                    assert forall|q: int| 0 <= q < ids.len() implies ids[q] != entity by {
                        let oq = if q == idx { last as int } else { q };
                        assert(ids[q] == old_ids[oq]);
                        assert(oq != idx);
                        if oq < idx {
                            assert(old_ids[oq] != old_ids[idx as int]);
                        } else {
                            assert(old_ids[idx as int] != old_ids[oq]);
                        }
                    }
                }
                true
            },
        }
    }

    /// Rebuild the adjacency graph based on proximity within same tile.
    fn rebuild_connections(&mut self)
        requires
            old(self).wf(),
        ensures
            final(self).wf(),
            !final(self).dirty,
            final(self).nodes@ == old(self).nodes@,
            final(self).satisfaction@ == old(self).satisfaction@,
    {
        let n = self.nodes.len();
        let mut adjacency: Vec<Vec<usize>> = Vec::new();
        let mut i: usize = 0;
        while i < n
            invariant
                n == self.nodes@.len(),
                i <= n,
                adjacency@.len() == i,
                forall|a: int, k: int| 0 <= a < i && 0 <= k < adjacency@[a]@.len()
                    ==> linked(self.nodes@, a, #[trigger] adjacency@[a]@[k] as int),
                forall|a: int, b: int| 0 <= a < i && #[trigger] linked(self.nodes@, a, b)
                    ==> adjacency@[a]@.contains(b as usize),
            decreases n - i,
        {
            let mut row: Vec<usize> = Vec::new();
            let mut j: usize = 0;
            while j < n
                invariant
                    n == self.nodes@.len(),
                    i < n,
                    j <= n,
                    forall|k: int| 0 <= k < row@.len() ==> linked(self.nodes@, i as int, #[trigger] row@[k] as int),
                    forall|b: int| 0 <= b < j && #[trigger] linked(self.nodes@, i as int, b) ==> row@.contains(b as usize),
                decreases n - j,
            {
                let ghost old_row = row@;
                if j != i && in_range(&self.nodes[i], &self.nodes[j]) {
                    row.push(j);
                    proof {
                        assert(row@[row@.len() - 1] == j);
                        assert forall|b: int| 0 <= b < j && #[trigger] linked(self.nodes@, i as int, b)
                            implies row@.contains(b as usize) by {
                            let r = choose|r: int| 0 <= r < old_row.len() && old_row[r] == b as usize;
                            assert(row@[r] == b as usize);
                        }
                    }
                }
                j = j + 1;
            }
            adjacency.push(row);
            i = i + 1;
        }
        self.adjacency = adjacency;
        self.dirty = false;
    }

    /// Marks with `s + 1` every node in the network of node `s`, by a
    /// breadth-first search over the adjacency graph.
    fn explore(&self, owner: &mut Vec<usize>, s: usize)
        requires
            self.wf(),
            !self.dirty,
            old(owner)@.len() == self.nodes@.len(),
            s < self.nodes@.len(),
            forall|k: int| 0 <= k < old(owner)@.len() ==> old(owner)@[k] != s + 1,
            forall|k: int| #[trigger] connected(self.nodes@, s as int, k) ==> old(owner)@[k] == 0,
        ensures
            final(owner)@.len() == old(owner)@.len(),
            forall|k: int| 0 <= k < final(owner)@.len() ==> #[trigger] final(owner)@[k] == if connected(
                self.nodes@,
                s as int,
                k,
            ) {
                (s + 1) as usize
            } else {
                old(owner)@[k]
            },
    {
        let ghost nodes = self.nodes@;
        let ghost n = nodes.len();
        let mark = s + 1;
        proof {
            lemma_connected_self(nodes, s as int);
            lemma_count_zero_set(owner@, s as int, mark);
        }
        owner.set(s, mark);
        let mut queue: Vec<usize> = Vec::new();
        queue.push(s);
        let mut head: usize = 0;
        proof {
            assert(queue@[0] == s);
        }
        while head < queue.len()
            invariant
                self.wf(),
                !self.dirty,
                nodes == self.nodes@,
                n == nodes.len(),
                mark == s + 1,
                s < n,
                owner@.len() == n,
                owner@[s as int] == mark,
                head <= queue@.len(),
                forall|q: int| 0 <= q < queue@.len() ==> (#[trigger] queue@[q]) < n && owner@[queue@[q] as int] == mark,
                forall|k: int| 0 <= k < n && owner@[k] == mark ==> queue@.contains(#[trigger] (k as usize)),
                forall|k: int| 0 <= k < n && #[trigger] owner@[k] == mark ==> connected(nodes, s as int, k),
                forall|k: int| 0 <= k < n && owner@[k] != mark ==> #[trigger] owner@[k] == old(owner)@[k],
                forall|q: int, j: int| 0 <= q < head && #[trigger] linked(nodes, queue@[q] as int, j) ==> owner@[j] == mark,
                forall|k: int| 0 <= k < old(owner)@.len() ==> old(owner)@[k] != mark,
                forall|k: int| #[trigger] connected(nodes, s as int, k) ==> old(owner)@[k] == 0,
                old(owner)@.len() == n,
            decreases count_zero(owner@) + queue@.len() - head,
        {
            let c = queue[head];
            let ghost before = count_zero(owner@) + queue@.len();
            let mut t: usize = 0;
            while t < self.adjacency[c].len()
                invariant
                    self.wf(),
                    !self.dirty,
                    nodes == self.nodes@,
                    n == nodes.len(),
                    mark == s + 1,
                    s < n,
                    c < n,
                    owner@.len() == n,
                    owner@[s as int] == mark,
                    head < queue@.len(),
                    queue@[head as int] == c,
                    owner@[c as int] == mark,
                    connected(nodes, s as int, c as int),
                    t <= self.adjacency@[c as int]@.len(),
                    count_zero(owner@) + queue@.len() == before,
                    forall|q: int| 0 <= q < queue@.len() ==> (#[trigger] queue@[q]) < n && owner@[queue@[q] as int] == mark,
                    forall|k: int| 0 <= k < n && owner@[k] == mark ==> queue@.contains(#[trigger] (k as usize)),
                    forall|k: int| 0 <= k < n && #[trigger] owner@[k] == mark ==> connected(nodes, s as int, k),
                    forall|k: int| 0 <= k < n && owner@[k] != mark ==> #[trigger] owner@[k] == old(owner)@[k],
                    forall|q: int, j: int| 0 <= q < head && #[trigger] linked(nodes, queue@[q] as int, j) ==> owner@[j] == mark,
                    forall|r: int| 0 <= r < t ==> owner@[#[trigger] self.adjacency@[c as int]@[r] as int] == mark,
                    forall|k: int| 0 <= k < old(owner)@.len() ==> old(owner)@[k] != mark,
                    forall|k: int| #[trigger] connected(nodes, s as int, k) ==> old(owner)@[k] == 0,
                    old(owner)@.len() == n,
                decreases self.adjacency@[c as int]@.len() - t,
            {
                let d = self.adjacency[c][t];
                proof {
                    assert(linked(nodes, c as int, d as int));
                    lemma_connected_step(nodes, s as int, c as int, d as int);
                }
                let ghost old_queue = queue@;
                let ghost prev_owner = owner@;
                if owner[d] == 0 {
                    proof {
                        lemma_count_zero_set(owner@, d as int, mark);
                    }
                    owner.set(d, mark);
                    queue.push(d);
                    proof {
                        assert forall|k: int| 0 <= k < n && owner@[k] == mark implies queue@.contains(
                            #[trigger] (k as usize),
                        ) by {
                            if k == d {
                                assert(queue@[queue@.len() - 1] == d);
                            } else {
                                assert(prev_owner[k] == mark);
                                assert(old_queue.contains(k as usize));
                                let q0 = choose|q0: int| 0 <= q0 < old_queue.len() && old_queue[q0] == k as usize;
                                assert(queue@[q0] == k as usize);
                            }
                        }
                    }
                } else {
                    proof {
                        assert(old(owner)@[d as int] == 0);
                    }
                }
                t = t + 1;
            }
            proof {
                assert forall|q: int, j: int| 0 <= q <= head && #[trigger] linked(nodes, queue@[q] as int, j)
                    implies owner@[j] == mark by {
                    if q == head {
                        assert(self.adjacency@[c as int]@.contains(j as usize));
                        let r = choose|r: int| 0 <= r < self.adjacency@[c as int]@.len() && self.adjacency@[c as int]@[r] == j as usize;
                        assert(owner@[self.adjacency@[c as int]@[r] as int] == mark);
                    }
                }
            }
            head = head + 1;
        }
        proof {
            assert forall|x: int, y: int| #[trigger] linked(nodes, x, y) && owner@[x] == mark implies owner@[y] == mark by {
                assert(queue@.contains(x as usize));
                let q = choose|q: int| 0 <= q < queue@.len() && queue@[q] == x as usize;
                assert(linked(nodes, queue@[q] as int, y));
            }
            assert forall|k: int| 0 <= k < owner@.len() implies #[trigger] owner@[k] == if connected(
                nodes,
                s as int,
                k,
            ) {
                mark
            } else {
                old(owner)@[k]
            } by {
                if connected(nodes, s as int, k) {
                    lemma_closed_holds_connected(nodes, owner@, mark, s as int, k);
                }
            }
        }
    }

    /// Sets the satisfaction of every node of `s`'s network, the nodes that
    /// `owner` marks with `s + 1`, from the network's production and
    /// consumption.
    fn settle(&mut self, owner: &Vec<usize>, s: usize)
        requires
            old(self).wf(),
            owner@.len() == old(self).nodes@.len(),
            s < old(self).nodes@.len(),
            forall|k: int| 0 <= k < owner@.len() ==> (#[trigger] owner@[k] == s + 1 <==> connected(
                old(self).nodes@,
                s as int,
                k,
            )),
        ensures
            final(self).wf(),
            final(self).nodes@ == old(self).nodes@,
            final(self).dirty == old(self).dirty,
            final(self).adjacency@ == old(self).adjacency@,
            final(self).satisfaction@.len() == old(self).satisfaction@.len(),
            forall|k: int| 0 <= k < old(self).nodes@.len() ==> #[trigger] final(self).satisfaction@[k] == if connected(
                old(self).nodes@,
                s as int,
                k,
            ) {
                solved_value(old(self).nodes@, k)
            } else {
                old(self).satisfaction@[k]
            },
    {
        let ghost nodes = self.nodes@;
        let n = self.nodes.len();
        let mark = s + 1;
        let mut production: u64 = 0;
        let mut consumption: u64 = 0;
        let mut j: usize = 0;
        while j < n
            invariant
                nodes == self.nodes@,
                n == nodes.len(),
                n <= u32::MAX,
                mark == s + 1,
                owner@.len() == n,
                j <= n,
                forall|k: int| 0 <= k < owner@.len() ==> (#[trigger] owner@[k] == s + 1 <==> connected(
                    nodes,
                    s as int,
                    k,
                )),
                production == supply_in(nodes, s as int, j as int),
                consumption == demand_in(nodes, s as int, j as int),
            decreases n - j,
        {
            proof {
                lemma_totals_bounded(nodes, s as int, j + 1);
                assert((j + 1) * 0xffff_ffff <= 0xffff_ffff * 0xffff_ffff) by (nonlinear_arith)
                    requires
                        j + 1 <= 0xffff_ffff,
                ;
                assert(owner@[j as int] == s + 1 <==> connected(nodes, s as int, j as int));
            }
            if owner[j] == mark {
                match self.nodes[j].kind {
                    PowerNodeKind::Producer => {
                        production = production + self.nodes[j].rate as u64;
                    },
                    PowerNodeKind::Consumer => {
                        if !self.nodes[j].exempt {
                            consumption = consumption + self.nodes[j].rate as u64;
                        }
                    },
                }
            }
            j = j + 1;
        }
        let ratio = if consumption > 0 && production < consumption {
            Satisfaction { supplied: production, demanded: consumption }
        } else {
            Satisfaction { supplied: 1, demanded: 1 }
        };
        proof {
            lemma_totals_bounded(nodes, s as int, n as int);
        }
        let mut j: usize = 0;
        while j < n
            invariant
                nodes == self.nodes@,
                n == nodes.len(),
                n <= u32::MAX,
                mark == s + 1,
                owner@.len() == n,
                j <= n,
                ratio == ratio_of(supply_in(nodes, s as int, n as int), demand_in(nodes, s as int, n as int)),
                ratio.valid(),
                forall|k: int| 0 <= k < owner@.len() ==> (#[trigger] owner@[k] == s + 1 <==> connected(
                    nodes,
                    s as int,
                    k,
                )),
                self.satisfaction@.len() == n,
                self.dirty == old(self).dirty,
                self.adjacency@ == old(self).adjacency@,
                forall|k: int| 0 <= k < j ==> #[trigger] self.satisfaction@[k] == if connected(nodes, s as int, k) {
                    solved_value(nodes, k)
                } else {
                    old(self).satisfaction@[k]
                },
                forall|k: int| j <= k < n ==> #[trigger] self.satisfaction@[k] == old(self).satisfaction@[k],
            decreases n - j,
        {
            proof {
                assert(owner@[j as int] == s + 1 <==> connected(nodes, s as int, j as int));
            }
            if owner[j] == mark {
                let v = if self.nodes[j].exempt {
                    Satisfaction { supplied: 1, demanded: 1 }
                } else {
                    ratio
                };
                proof {
                    lemma_same_network_totals(nodes, s as int, j as int, n as int);
                }
                self.satisfaction.set(j, v);
            }
            j = j + 1;
        }
        proof {
            assert forall|i: int| 0 <= i < self.satisfaction@.len() implies (#[trigger] self.satisfaction@[i]).valid() by {
                if connected(nodes, s as int, i) {
                    lemma_totals_bounded(nodes, i, n as int);
                } else {
                    assert(old(self).satisfaction@[i].valid());
                }
            }
        }
    }

    /// Solve power distribution: every node of a network receives the ratio
    /// of the network's production to its consumption, capped at one;
    /// exempt nodes are always fully supplied.
    pub fn solve(&mut self)
        requires
            old(self).wf(),
        ensures
            final(self).wf(),
            final(self).node_seq() == old(self).node_seq(),
            final(self).sat_seq().len() == old(self).sat_seq().len(),
            forall|i: int| 0 <= i < final(self).sat_seq().len() ==> #[trigger] final(self).sat_seq()[i]
                == solved_value(final(self).node_seq(), i),
    {
        if self.dirty {
            self.rebuild_connections();
        }
        let ghost nodes = self.nodes@;
        let n = self.nodes.len();
        if n == 0 {
            return;
        }
        let mut owner: Vec<usize> = Vec::new();
        let mut k: usize = 0;
        while k < n
            invariant
                k <= n,
                owner@.len() == k,
                forall|i: int| 0 <= i < k ==> #[trigger] owner@[i] == 0,
            decreases n - k,
        {
            owner.push(0);
            k = k + 1;
        }
        let mut start: usize = 0;
        while start < n
            invariant
                self.wf(),
                !self.dirty,
                nodes == self.nodes@,
                nodes == old(self).nodes@,
                n == nodes.len(),
                owner@.len() == n,
                start <= n,
                forall|j: int| 0 <= j < n && #[trigger] owner@[j] != 0 ==> owner@[j] <= start && connected(
                    nodes,
                    owner@[j] - 1,
                    j,
                ) && self.satisfaction@[j] == solved_value(nodes, j),
                forall|j: int, k: int| 0 <= j < n && owner@[j] != 0 && #[trigger] connected(nodes, owner@[j] - 1, k)
                    ==> #[trigger] owner@[k] == owner@[j],
                forall|j: int| 0 <= j < start ==> #[trigger] owner@[j] != 0,
            decreases n - start,
        {
            if owner[start] == 0 {
                let ghost before = owner@;
                let ghost before_sat = self.satisfaction@;
                proof {
                    assert forall|k: int| #[trigger] connected(nodes, start as int, k) implies before[k] == 0 by {
                        lemma_connected_in_range(nodes, start as int, k);
                        if before[k] != 0 {
                            let r = before[k] - 1;
                            lemma_connected_symmetric(nodes, start as int, k);
                            lemma_connected_transitive(nodes, r, k, start as int);
                            assert(before[start as int] == before[k]);
                        }
                    }
                }
                self.explore(&mut owner, start);
                self.settle(&owner, start);
                proof {
                    lemma_connected_self(nodes, start as int);
                    assert(owner@[start as int] != 0);
                    assert forall|j: int| 0 <= j < start implies #[trigger] owner@[j] != 0 by {
                        if !connected(nodes, start as int, j) {
                            assert(before[j] != 0);
                        }
                    }
                    assert forall|j: int| 0 <= j < n && #[trigger] owner@[j] != 0 implies owner@[j] <= start + 1
                        && connected(nodes, owner@[j] - 1, j) && self.satisfaction@[j] == solved_value(nodes, j) by {
                        if !connected(nodes, start as int, j) {
                            assert(before[j] != 0);
                        }
                    }
                    assert forall|j: int, k: int| 0 <= j < n && owner@[j] != 0 && #[trigger] connected(
                        nodes,
                        owner@[j] - 1,
                        k,
                    ) implies #[trigger] owner@[k] == owner@[j] by {
                        lemma_connected_in_range(nodes, owner@[j] - 1, k);
                        if !connected(nodes, start as int, j) {
                            assert(before[j] != 0);
                            assert(before[k] == before[j]);
                            if connected(nodes, start as int, k) {
                                assert(before[k] == 0);
                            }
                        }
                    }
                }
            }
            start = start + 1;
        }
        proof {
            assert forall|i: int| 0 <= i < self.satisfaction@.len() implies #[trigger] self.satisfaction@[i]
                == solved_value(nodes, i) by {
                assert(owner@[i] != 0);
            }
        }
    }

    /// Propagate satisfaction to machines: each machine the network knows
    /// runs when its satisfaction is above zero.
    pub fn propagate_to_machines(&self, machines: &mut MachinePool)
        requires
            self.wf(),
            old(machines).wf(),
        ensures
            final(machines).wf(),
            final(machines).count == old(machines).count,
            final(machines).cold == old(machines).cold,
            final(machines).hot.progress@ == old(machines).hot.progress@,
            final(machines).hot.recipe_ticks@ == old(machines).hot.recipe_ticks@,
            final(machines).hot.recipe_total_ticks@ == old(machines).hot.recipe_total_ticks@,
            final(machines).hot.state@ == old(machines).hot.state@,
            final(machines).hot.powered@.len() == old(machines).hot.powered@.len(),
            forall|i: int| 0 <= i < old(machines).count ==> #[trigger] final(machines).hot.powered@[i] == powered_by(
                self.node_seq(),
                self.sat_seq(),
                old(machines).cold.entity_id@[i],
                old(machines).hot.powered@[i],
            ),
    {
        let mut i: usize = 0;
        while i < machines.count
            invariant
                self.wf(),
                machines.wf(),
                machines.count == old(machines).count,
                machines.cold == old(machines).cold,
                machines.hot.progress@ == old(machines).hot.progress@,
                machines.hot.recipe_ticks@ == old(machines).hot.recipe_ticks@,
                machines.hot.recipe_total_ticks@ == old(machines).hot.recipe_total_ticks@,
                machines.hot.state@ == old(machines).hot.state@,
                i <= machines.count,
                forall|k: int| 0 <= k < i ==> #[trigger] machines.hot.powered@[k] == powered_by(
                    self.node_seq(),
                    self.sat_seq(),
                    old(machines).cold.entity_id@[k],
                    old(machines).hot.powered@[k],
                ),
                forall|k: int| i <= k < machines.count ==> #[trigger] machines.hot.powered@[k] == old(machines).hot.powered@[k],
            decreases machines.count - i,
        {
            let entity = machines.cold.entity_id[i];
            if let Some(sat) = self.satisfaction(entity) {
                machines.hot.powered.set(i, sat.is_powered());
            }
            i = i + 1;
        }
    }

    /// Get power satisfaction for an entity.
    pub fn satisfaction(&self, entity: EntityId) -> (r: Option<Satisfaction>)
        requires
            self.wf(),
        ensures
            match index_in(node_ids(self.node_seq()), entity) {
                Some(i) => r == Some(self.sat_seq()[i]) && self.sat_seq()[i].valid(),
                None => r is None,
            },
    {
        match self.find(entity) {
            Some(i) => Some(self.satisfaction[i]),
            None => None,
        }
    }

    /// Number of registered nodes.
    pub fn node_count(&self) -> (r: usize)
        requires
            self.wf(),
        ensures
            r == self.node_seq().len(),
    {
        self.nodes.len()
    }
}

} // verus!
