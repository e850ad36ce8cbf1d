use octofact::game::items::MachineType;
use octofact::game::world::EntityId;
use octofact::sim::machine::MachinePool;
use octofact::sim::power::{
    PowerNetwork, PowerNodeKind, Satisfaction, DYNAMO_RATE, MACHINE_CONSUMPTION, QUADRUPOLE_RATE,
};

fn make_entities(n: usize) -> Vec<EntityId> {
    (0..n).map(|i| EntityId(i as u64 + 1)).collect()
}

const FULL: Satisfaction = Satisfaction { supplied: 1, demanded: 1 };
const NONE: Satisfaction = Satisfaction { supplied: 0, demanded: 1 };

fn as_f64(s: Satisfaction) -> f64 {
    s.supplied as f64 / s.demanded as f64
}

#[test]
fn empty_network() {
    let mut net = PowerNetwork::new();
    net.solve();
    assert_eq!(net.node_count(), 0);
}

#[test]
fn single_producer_no_consumers() {
    let mut net = PowerNetwork::new();
    let ids = make_entities(1);
    net.add(ids[0], PowerNodeKind::Producer, QUADRUPOLE_RATE, &[0], 0, 0, false);
    net.solve();
    assert_eq!(net.satisfaction(ids[0]), Some(FULL));
}

#[test]
fn single_consumer_no_producer() {
    let mut net = PowerNetwork::new();
    let ids = make_entities(1);
    net.add(ids[0], PowerNodeKind::Consumer, MACHINE_CONSUMPTION, &[0], 0, 0, false);
    net.solve();
    assert_eq!(as_f64(net.satisfaction(ids[0]).unwrap()), 0.0);
}

#[test]
fn one_quad_two_machines_full_power() {
    let mut net = PowerNetwork::new();
    let ids = make_entities(3);
    // Quadrupole at (0,0), rate 2
    net.add(ids[0], PowerNodeKind::Producer, QUADRUPOLE_RATE, &[0], 0, 0, false);
    // Machine at (3,0), rate 1
    net.add(ids[1], PowerNodeKind::Consumer, MACHINE_CONSUMPTION, &[0], 3, 0, false);
    // Machine at (0,3), rate 1
    net.add(ids[2], PowerNodeKind::Consumer, MACHINE_CONSUMPTION, &[0], 0, 3, false);
    net.solve();
    // 2 production / 2 consumption = 1
    assert_eq!(net.satisfaction(ids[1]), Some(FULL));
    assert_eq!(net.satisfaction(ids[2]), Some(FULL));
}

#[test]
fn overloaded_power() {
    let mut net = PowerNetwork::new();
    let ids = make_entities(4);
    // Quadrupole at (0,0), rate 2
    net.add(ids[0], PowerNodeKind::Producer, QUADRUPOLE_RATE, &[0], 0, 0, false);
    // 3 machines nearby, total consumption 3
    net.add(ids[1], PowerNodeKind::Consumer, MACHINE_CONSUMPTION, &[0], 1, 0, false);
    net.add(ids[2], PowerNodeKind::Consumer, MACHINE_CONSUMPTION, &[0], 0, 1, false);
    net.add(ids[3], PowerNodeKind::Consumer, MACHINE_CONSUMPTION, &[0], 1, 1, false);
    net.solve();
    // 2 / 3 = 0.6667
    let expected = 2.0 / 3.0;
    let sat = as_f64(net.satisfaction(ids[1]).unwrap());
    assert!((sat - expected).abs() < 0.001, "expected {}, got {}", expected, sat);
    assert!((as_f64(net.satisfaction(ids[2]).unwrap()) - expected).abs() < 0.001);
    assert!((as_f64(net.satisfaction(ids[3]).unwrap()) - expected).abs() < 0.001);
    assert_eq!(net.satisfaction(ids[1]), Some(Satisfaction { supplied: 2, demanded: 3 }));
}

#[test]
fn out_of_range_not_connected() {
    let mut net = PowerNetwork::new();
    let ids = make_entities(2);
    // Quadrupole at (0,0)
    net.add(ids[0], PowerNodeKind::Producer, QUADRUPOLE_RATE, &[0], 0, 0, false);
    // Machine at (20,20) — way out of range
    net.add(ids[1], PowerNodeKind::Consumer, MACHINE_CONSUMPTION, &[0], 20, 20, false);
    net.solve();
    // Machine not connected to any producer
    assert_eq!(as_f64(net.satisfaction(ids[1]).unwrap()), 0.0);
}

#[test]
fn different_tiles_not_connected() {
    let mut net = PowerNetwork::new();
    let ids = make_entities(2);
    // Quadrupole in tile [0]
    net.add(ids[0], PowerNodeKind::Producer, QUADRUPOLE_RATE, &[0], 0, 0, false);
    // Machine in tile [1], same grid coords but different tile
    net.add(ids[1], PowerNodeKind::Consumer, MACHINE_CONSUMPTION, &[1], 0, 0, false);
    net.solve();
    assert_eq!(as_f64(net.satisfaction(ids[1]).unwrap()), 0.0);
}

#[test]
fn exempt_consumer_always_full() {
    let mut net = PowerNetwork::new();
    let ids = make_entities(2);
    // No producer. Exempt consumer (Source machine).
    net.add(ids[0], PowerNodeKind::Consumer, MACHINE_CONSUMPTION, &[0], 0, 0, true);
    // Non-exempt consumer
    net.add(ids[1], PowerNodeKind::Consumer, MACHINE_CONSUMPTION, &[0], 1, 0, false);
    net.solve();
    assert_eq!(net.satisfaction(ids[0]), Some(FULL)); // exempt
    assert_eq!(as_f64(net.satisfaction(ids[1]).unwrap()), 0.0); // no power
}

#[test]
fn exempt_not_counted_in_consumption() {
    let mut net = PowerNetwork::new();
    let ids = make_entities(3);
    // Quadrupole, rate 2
    net.add(ids[0], PowerNodeKind::Producer, QUADRUPOLE_RATE, &[0], 0, 0, false);
    // Exempt consumer (should not count toward consumption)
    net.add(ids[1], PowerNodeKind::Consumer, MACHINE_CONSUMPTION, &[0], 1, 0, true);
    // Regular consumer, rate 1
    net.add(ids[2], PowerNodeKind::Consumer, MACHINE_CONSUMPTION, &[0], 2, 0, false);
    net.solve();
    // 2 production / 1 consumption = 1 (exempt doesn't count)
    assert_eq!(net.satisfaction(ids[1]), Some(FULL)); // exempt
    assert_eq!(net.satisfaction(ids[2]), Some(FULL)); // fully powered
}

#[test]
fn dynamo_higher_rate() {
    let mut net = PowerNetwork::new();
    let ids = make_entities(9);
    // Dynamo at center, rate 8
    net.add(ids[0], PowerNodeKind::Producer, DYNAMO_RATE, &[0], 4, 4, false);
    // 8 machines around it
    for i in 1..=8 {
        let gx = 4 + ((i as i16 - 1) % 3) - 1;
        let gy = 4 + ((i as i16 - 1) / 3) - 1;
        net.add(ids[i], PowerNodeKind::Consumer, MACHINE_CONSUMPTION, &[0], gx, gy, false);
    }
    net.solve();
    // 8 / 8 = 1
    for i in 1..=8 {
        assert_eq!(net.satisfaction(ids[i]), Some(FULL));
    }
}

#[test]
fn remove_node() {
    let mut net = PowerNetwork::new();
    let ids = make_entities(3);
    net.add(ids[0], PowerNodeKind::Producer, QUADRUPOLE_RATE, &[0], 0, 0, false);
    net.add(ids[1], PowerNodeKind::Consumer, MACHINE_CONSUMPTION, &[0], 1, 0, false);
    net.add(ids[2], PowerNodeKind::Consumer, MACHINE_CONSUMPTION, &[0], 2, 0, false);

    assert!(net.remove(ids[1]));
    assert_eq!(net.node_count(), 2);

    net.solve();
    // 2 / 1 = 1 (only one consumer left)
    assert_eq!(net.satisfaction(ids[2]), Some(FULL));
    assert_eq!(net.satisfaction(ids[1]), None); // removed
}

#[test]
fn two_separate_components() {
    let mut net = PowerNetwork::new();
    let ids = make_entities(7);
    // Component 1: well-powered (at gx=0)
    net.add(ids[0], PowerNodeKind::Producer, QUADRUPOLE_RATE, &[0], 0, 0, false);
    net.add(ids[1], PowerNodeKind::Consumer, MACHINE_CONSUMPTION, &[0], 1, 0, false);
    // Component 2: underpowered (at gx=50, far away)
    net.add(ids[2], PowerNodeKind::Producer, QUADRUPOLE_RATE, &[0], 50, 0, false);
    net.add(ids[3], PowerNodeKind::Consumer, MACHINE_CONSUMPTION, &[0], 51, 0, false);

    // Add extra consumers to component 2
    for i in 0..3 {
        net.add(ids[4 + i], PowerNodeKind::Consumer, MACHINE_CONSUMPTION, &[0], 52 + i as i16, 0, false);
    }

    net.solve();
    // Component 1: 2/1 = 1
    assert_eq!(net.satisfaction(ids[1]), Some(FULL));
    // Component 2: 2/4 = 0.5
    let sat = as_f64(net.satisfaction(ids[3]).unwrap());
    assert!((sat - 0.5).abs() < 0.001, "expected 0.5, got {}", sat);
}

#[test]
fn power_before_solve_is_zero_or_full() {
    let mut net = PowerNetwork::new();
    let ids = make_entities(2);
    net.add(ids[0], PowerNodeKind::Consumer, MACHINE_CONSUMPTION, &[0], 0, 0, false);
    net.add(ids[1], PowerNodeKind::Consumer, MACHINE_CONSUMPTION, &[0], 5, 0, true);
    assert_eq!(net.satisfaction(ids[0]), Some(NONE));
    assert_eq!(net.satisfaction(ids[1]), Some(FULL));
    assert!(!NONE.is_powered());
    assert!(FULL.is_powered());
}

#[test]
fn power_chain_links_distant_nodes() {
    // A producer reaches a consumer 16 squares away through a consumer
    // standing halfway: one network of demand 2.
    let mut net = PowerNetwork::new();
    let ids = make_entities(3);
    net.add(ids[0], PowerNodeKind::Producer, MACHINE_CONSUMPTION, &[2, 1], 0, 0, false);
    net.add(ids[1], PowerNodeKind::Consumer, MACHINE_CONSUMPTION, &[2, 1], 8, 0, false);
    net.add(ids[2], PowerNodeKind::Consumer, MACHINE_CONSUMPTION, &[2, 1], 16, 0, false);
    net.solve();
    assert_eq!(net.satisfaction(ids[1]), Some(Satisfaction { supplied: 1, demanded: 2 }));
    assert_eq!(net.satisfaction(ids[2]), Some(Satisfaction { supplied: 1, demanded: 2 }));
    // Just out of reach on the diagonal: 6*6 + 6*6 > 64.
    net.add(EntityId(99), PowerNodeKind::Consumer, MACHINE_CONSUMPTION, &[2, 1], -6, -6, false);
    net.solve();
    assert_eq!(net.satisfaction(EntityId(99)), Some(NONE));
    assert_eq!(net.satisfaction(ids[2]), Some(Satisfaction { supplied: 1, demanded: 2 }));
}

#[test]
fn power_remove_producer_cuts_supply() {
    let mut net = PowerNetwork::new();
    let ids = make_entities(2);
    net.add(ids[0], PowerNodeKind::Producer, QUADRUPOLE_RATE, &[0], 0, 0, false);
    net.add(ids[1], PowerNodeKind::Consumer, MACHINE_CONSUMPTION, &[0], 1, 0, false);
    net.solve();
    assert_eq!(net.satisfaction(ids[1]), Some(FULL));
    assert!(net.remove(ids[0]));
    assert!(!net.remove(ids[0]));
    net.solve();
    assert_eq!(net.satisfaction(ids[1]), Some(NONE));
}

#[test]
fn power_propagates_to_machines() {
    let mut pool = MachinePool::new();
    let m1 = EntityId(10);
    let m2 = EntityId(11);
    let m3 = EntityId(12);
    pool.add(m1, MachineType::Composer);
    pool.add(m2, MachineType::Inverter);
    pool.add(m3, MachineType::Embedder);
    let mut net = PowerNetwork::new();
    // m1 alone without a producer; m3 beside a quadrupole; m2 unknown to the network.
    net.add(m1, PowerNodeKind::Consumer, MACHINE_CONSUMPTION, &[0], 0, 0, false);
    net.add(EntityId(20), PowerNodeKind::Producer, QUADRUPOLE_RATE, &[0], 30, 30, false);
    net.add(m3, PowerNodeKind::Consumer, MACHINE_CONSUMPTION, &[0], 31, 30, false);
    net.solve();
    net.propagate_to_machines(&mut pool);
    assert_eq!(pool.hot.powered, vec![false, true, true]);
}
